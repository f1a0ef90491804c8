//! The plugin: how it starts, and what it does about events and messages.
use vstd::prelude::*;

use crate::identity::{has_store, terminal_ids, terminal_ids_are_those_of_terminals};
use crate::ids::{parse_bool_config, resolve_shared_state_host_folder, says_yes, shared_folder};
use crate::indexes::{empty_indexes, no_widths};
use crate::leader::{cached_role, role_in_cache, WriteRole};
use crate::map::{lemma_map_of_keys, map_of, Record, TextMap};
use crate::numbers::NumberMap;
use crate::protocol::PIPE_NAME;
use crate::render::tab_clicked;
use crate::row::RowView;
use crate::schema::{columns_of_config, Schema};
use crate::state::{
    effect_views, fits_columns, lemma_effect_pushed, pane_views, same_tabs, tab_views, Effect,
    EffectView, Event, PaneInfo, PaneManifest, PaneView, RenderConfig, RenderView, State, StateView,
    TabInfo, TabView,
};
use crate::text::{
    chars_of, decimal, number, number_reads_decimal, parse_number, same_text, string_view,
    text_view,
};

verus! {

// ---------------------------------------------------------------------------------------
// Starting
// ---------------------------------------------------------------------------------------

/// The text under a key, or another where the key is absent.
pub open spec fn setting_or(
    config: Map<Seq<char>, Seq<char>>,
    key: Seq<char>,
    other: Seq<char>,
) -> Seq<char> {
    if config.contains_key(key) {
        config[key]
    } else {
        other
    }
}

/// How the list is shown with a configuration.
pub open spec fn render_configured(
    render: RenderView,
    config: Map<Seq<char>, Seq<char>>,
) -> RenderView {
    let padding = if config.contains_key("padding_top"@) {
        number(config["padding_top"@], 10, usize::MAX as int)
    } else {
        None
    };
    RenderView {
        overflow_above: setting_or(config, "overflow_above"@, render.overflow_above),
        overflow_below: setting_or(config, "overflow_below"@, render.overflow_below),
        active: setting_or(config, "indicator_active"@, render.active),
        fullscreen: setting_or(config, "indicator_fullscreen"@, render.fullscreen),
        sync: setting_or(config, "indicator_sync"@, render.sync),
        padding_top: match padding {
            Some(n) => n as usize,
            None => render.padding_top,
        },
        border: setting_or(
            config,
            "border"@,
            setting_or(config, "border_char"@, render.border),
        ),
    }
}

/// An error of the configuration as it is shown.
pub open spec fn config_error(message: Seq<char>) -> Seq<char> {
    "super-tabs config error: "@ + message
}

/// The state after the plugin was loaded with a configuration. An error in the columns is shown
/// rather than one in the folder.
pub open spec fn loaded(
    s: StateView,
    config: Map<Seq<char>, Seq<char>>,
    plugin_id: u32,
    xdg_data_home: Option<Seq<char>>,
    home: Option<Seq<char>>,
) -> StateView {
    let wanted = if config.contains_key("state_host_folder"@) {
        Some(config["state_host_folder"@])
    } else {
        None
    };
    let folder = shared_folder(wanted, xdg_data_home, home);
    let columns = columns_of_config(config);
    StateView {
        plugin_id: Some(plugin_id),
        debug: if config.contains_key("debug"@) {
            says_yes(config["debug"@])
        } else {
            s.debug
        },
        render: render_configured(s.render, config),
        folder: match folder {
            Ok(path) => Some(path),
            Err(_) => s.folder,
        },
        columns: match columns {
            Ok(columns) => Some(columns),
            Err(_) => s.columns,
        },
        widths: match columns {
            Ok(columns) => no_widths(columns.len()),
            Err(_) => s.widths,
        },
        load_error: match (folder, columns) {
            (_, Err(message)) => Some(config_error(message)),
            (Err(message), Ok(_)) => Some(config_error(message)),
            (Ok(_), Ok(_)) => s.load_error,
        },
        ..s
    }
}

fn configure(config: &TextMap<String>, key: &str, value: &mut String)
    ensures
        final(value)@ == setting_or(config@, key@, old(value)@),
{
    if let Some(text) = config.get(key) {
        *value = text.clone();
    }
}

fn show_config_error(message: String) -> (r: Option<String>)
    ensures
        string_view(r) == Some(config_error(message@)),
{
    let mut shown = "super-tabs config error: ".to_owned();
    shown.append(message.as_str());
    Some(shown)
}

impl RenderConfig {
    fn apply(&mut self, config: &TextMap<String>)
        ensures
            final(self)@ == render_configured(old(self)@, config@),
    {
        configure(config, "overflow_above", &mut self.overflow_above);
        configure(config, "overflow_below", &mut self.overflow_below);
        configure(config, "indicator_active", &mut self.indicator_active);
        configure(config, "indicator_fullscreen", &mut self.indicator_fullscreen);
        configure(config, "indicator_sync", &mut self.indicator_sync);
        if let Some(value) = config.get("padding_top") {
            let chars = chars_of(value.as_str());
            if let Some(n) = parse_number(chars.as_slice(), 10, usize::MAX as u64) {
                self.padding_top = n as usize;
            }
        }
        configure(config, "border_char", &mut self.border);
        configure(config, "border", &mut self.border);
    }
}

impl State {
    /// Starts with a configuration. `xdg_data_home` and `home` are variables of the environment.
    pub fn load(
        &mut self,
        configuration: &TextMap<String>,
        plugin_id: u32,
        xdg_data_home: &Option<String>,
        home: &Option<String>,
    )
        ensures
            final(self)@ == loaded(
                old(self)@,
                configuration@,
                plugin_id,
                string_view(*xdg_data_home),
                string_view(*home),
            ),
            old(self)@.rows == Map::<Seq<char>, RowView>::empty() && columns_of_config(
                configuration@,
            ) is Ok ==> fits_columns(final(self)@),
            fits_columns(old(self)@) && columns_of_config(configuration@) is Err ==> fits_columns(
                final(self)@,
            ),
    {
        self.plugin_id = Some(plugin_id);
        if let Some(value) = configuration.get("debug") {
            self.debug_enabled = parse_bool_config(value.as_str());
        }
        self.render.apply(configuration);
        match resolve_shared_state_host_folder(
            configuration.get("state_host_folder"),
            xdg_data_home,
            home,
        ) {
            Ok(folder) => {
                self.shared_state_host_folder = Some(folder);
            },
            Err(message) => {
                self.load_error = show_config_error(message);
            },
        }
        match Schema::from_config(configuration) {
            Ok(schema) => {
                self.width_indexes = empty_indexes(schema.len());
                self.schema = Some(schema);
            },
            Err(message) => {
                self.load_error = show_config_error(message);
            },
        }
    }
}

// ---------------------------------------------------------------------------------------
// Panes
// ---------------------------------------------------------------------------------------

/// Terminal panes with the position of their tab.
pub open spec fn pane_entries(position: usize, ids: Seq<u32>) -> Seq<(usize, usize)> {
    ids.map_values(|id: u32| (id as usize, position))
}

/// All terminal panes, each with the position of its tab.
pub open spec fn all_pane_entries(manifest: Seq<(usize, Seq<PaneView>)>) -> Seq<(usize, usize)>
    decreases manifest.len(),
{
    if manifest.len() == 0 {
        Seq::empty()
    } else {
        all_pane_entries(manifest.drop_last()) + pane_entries(
            manifest.last().0,
            terminal_ids(manifest.last().1),
        )
    }
}

/// The position of the tab of each terminal pane. Plugins are not among them, whatever their
/// ids.
pub open spec fn pane_lookup(manifest: Seq<(usize, Seq<PaneView>)>) -> Map<usize, usize> {
    map_of(all_pane_entries(manifest))
}

fn add_panes(
    lookup: &mut NumberMap<usize>,
    position: usize,
    panes: &Vec<PaneInfo>,
    Ghost(before): Ghost<Seq<(usize, usize)>>,
)
    requires
        old(lookup)@ == map_of(before),
    ensures
        final(lookup)@ == map_of(
            before + pane_entries(position, terminal_ids(pane_views(panes@))),
        ),
{
    let ghost all = pane_views(panes@);
    let mut i: usize = 0;
    proof {
        assert(all.take(0) =~= Seq::<PaneView>::empty());
        assert(before + pane_entries(position, terminal_ids(all.take(0))) =~= before);
    }
    while i < panes.len()
        invariant
            i <= panes.len(),
            all == pane_views(panes@),
            lookup@ == map_of(before + pane_entries(position, terminal_ids(all.take(i as int)))),
        decreases panes.len() - i,
    {
        let ghost front = terminal_ids(all.take(i as int));
        let ghost known = before + pane_entries(position, front);
        proof {
            let t = all.take(i + 1);
            assert(t.drop_last() =~= all.take(i as int));
            assert(t.last() == panes@[i as int]@);
        }
        if !panes[i].is_plugin {
            let id: u32 = panes[i].id;
            lookup.insert(id as usize, position);
            proof {
                let next = before + pane_entries(position, front.push(id));
                assert(next =~= known.push((id as usize, position)));
                assert(next.drop_last() =~= known);
            }
        }
        i = i + 1;
    }
    assert(all.take(all.len() as int) =~= all);
}

/// Finds the position of the tab of each terminal pane.
pub fn build_terminal_pane_lookup(pane_manifest: &PaneManifest) -> (r: NumberMap<usize>)
    ensures
        r@ == pane_lookup(pane_manifest@),
{
    let ghost all = pane_manifest@;
    let mut lookup: NumberMap<usize> = NumberMap::new();
    let mut i: usize = 0;
    assert(all.take(0) =~= Seq::<(usize, Seq<PaneView>)>::empty());
    while i < pane_manifest.panes.len()
        invariant
            i <= pane_manifest.panes.len(),
            all == pane_manifest@,
            lookup@ == map_of(all_pane_entries(all.take(i as int))),
        decreases pane_manifest.panes.len() - i,
    {
        let entry = &pane_manifest.panes[i];
        proof {
            let t = all.take(i + 1);
            assert(t.drop_last() =~= all.take(i as int));
            assert(t.last() == (entry.0, pane_views(entry.1@)));
        }
        add_panes(
            &mut lookup,
            entry.0,
            &entry.1,
            Ghost(all_pane_entries(all.take(i as int))),
        );
        i = i + 1;
    }
    assert(all.take(all.len() as int) =~= all);
    lookup
}

/// Pairs of one position behind others put just their panes at that position.
proof fn lemma_panes_added(before: Seq<(usize, usize)>, position: usize, ids: Seq<u32>, id: u32)
    ensures
        ({
            let after = map_of(before + pane_entries(position, ids));
            let k = id as usize;
            &&& ids.contains(id) ==> after.contains_key(k) && after[k] == position
            &&& !ids.contains(id) ==> (after.contains_key(k) <==> map_of(before).contains_key(k))
                && after[k] == map_of(before)[k]
        }),
    decreases ids.len(),
{
    let all = before + pane_entries(position, ids);
    if ids.len() == 0 {
        assert(all =~= before);
    } else {
        let front = ids.drop_last();
        assert(all.drop_last() =~= before + pane_entries(position, front));
        assert(all.last() == (ids.last() as usize, position));
        lemma_panes_added(before, position, front, id);
        if ids.contains(id) && id != ids.last() {
            let i = choose|i: int| 0 <= i < ids.len() && ids[i] == id;
            assert(front[i] == id);
        }
        if front.contains(id) {
            let i = choose|i: int| 0 <= i < front.len() && front[i] == id;
            assert(ids[i] == id);
        }
        assert(ids[ids.len() - 1] == ids.last());
    }
}

/// Among the panes of a tab is a terminal of the given id.
pub open spec fn holds_terminal(panes: Seq<PaneView>, id: u32) -> bool {
    exists|i: int| 0 <= i < panes.len() && !(#[trigger] panes[i]).plugin && panes[i].id == id
}

/// Every terminal pane of every tab is found, at the position of its tab: of tabs with a
/// terminal of the same id, at the last of them. Nothing else is found.
pub proof fn every_terminal_pane_is_found_in_its_tab(manifest: Seq<(usize, Seq<PaneView>)>)
    ensures
        forall|e: int, i: int|
            0 <= e < manifest.len() && 0 <= i < manifest[e].1.len() && !(
            #[trigger] manifest[e].1[i]).plugin ==> pane_lookup(manifest).contains_key(
                manifest[e].1[i].id as usize,
            ),
        forall|e: int, id: u32|
            0 <= e < manifest.len() && #[trigger] holds_terminal(manifest[e].1, id) && (forall|
                other: int,
            |
                e < other < manifest.len() ==> !holds_terminal(
                    (#[trigger] manifest[other]).1,
                    id,
                )) ==> pane_lookup(manifest).contains_key(id as usize) && pane_lookup(
                manifest,
            )[id as usize] == manifest[e].0,
        forall|k: usize| #[trigger]
            pane_lookup(manifest).contains_key(k) ==> exists|e: int, i: int|
                0 <= e < manifest.len() && 0 <= i < manifest[e].1.len() && !(
                #[trigger] manifest[e].1[i]).plugin && manifest[e].1[i].id == k && manifest[e].0
                    == pane_lookup(manifest)[k],
    decreases manifest.len(),
{
    if manifest.len() > 0 {
        let front = manifest.drop_last();
        let last = manifest.len() - 1;
        every_terminal_pane_is_found_in_its_tab(front);
        assert forall|id: u32|
            {
                let here = #[trigger] holds_terminal(manifest[last].1, id);
                let k = id as usize;
                &&& here ==> pane_lookup(manifest).contains_key(k) && pane_lookup(manifest)[k]
                    == manifest[last].0
                &&& !here ==> (pane_lookup(manifest).contains_key(k) <==> pane_lookup(
                    front,
                ).contains_key(k)) && pane_lookup(manifest)[k] == pane_lookup(front)[k]
            } by {
            terminal_ids_are_those_of_terminals(manifest[last].1, id);
            lemma_panes_added(
                all_pane_entries(front),
                manifest[last].0,
                terminal_ids(manifest[last].1),
                id,
            );
        }
        assert forall|e: int, i: int|
            0 <= e < manifest.len() && 0 <= i < manifest[e].1.len() && !(
            #[trigger] manifest[e].1[i]).plugin implies pane_lookup(manifest).contains_key(
            manifest[e].1[i].id as usize,
        ) by {
            let id = manifest[e].1[i].id;
            assert(holds_terminal(manifest[e].1, id));
            if e < last {
                assert(front[e] == manifest[e]);
                assert(!front[e].1[i].plugin);
                assert(pane_lookup(front).contains_key(id as usize));
            }
            if !holds_terminal(manifest[last].1, id) {
                assert(pane_lookup(manifest).contains_key(id as usize));
            }
        }
        assert forall|e: int, id: u32|
            0 <= e < manifest.len() && #[trigger] holds_terminal(manifest[e].1, id) && (forall|
                other: int,
            |
                e < other < manifest.len() ==> !holds_terminal(
                    (#[trigger] manifest[other]).1,
                    id,
                )) implies pane_lookup(manifest).contains_key(id as usize) && pane_lookup(
            manifest,
        )[id as usize] == manifest[e].0 by {
            if e < last {
                assert(!holds_terminal(manifest[last].1, id));
                assert(holds_terminal(front[e].1, id));
                assert forall|other: int| e < other < front.len() implies !holds_terminal(
                    (#[trigger] front[other]).1,
                    id,
                ) by {
                    assert(front[other] == manifest[other]);
                }
            }
        }
        assert forall|k: usize| #[trigger] pane_lookup(manifest).contains_key(k) implies exists|
            e: int,
            i: int,
        |
            0 <= e < manifest.len() && 0 <= i < manifest[e].1.len() && !(
            #[trigger] manifest[e].1[i]).plugin && manifest[e].1[i].id == k && manifest[e].0
                == pane_lookup(manifest)[k] by {
            let entries = all_pane_entries(manifest);
            lemma_map_of_keys(entries, k);
            let at = choose|at: int| 0 <= at < entries.len() && (#[trigger] entries[at]).0 == k;
            lemma_entries_are_ids(manifest, at);
            let id = k as u32;
            if holds_terminal(manifest[last].1, id) {
                let i = choose|i: int|
                    0 <= i < manifest[last].1.len() && !(#[trigger] manifest[last].1[i]).plugin
                        && manifest[last].1[i].id == id;
                assert(!manifest[last].1[i].plugin);
            } else {
                assert(pane_lookup(front).contains_key(k));
                let (e, i) = choose|e: int, i: int|
                    0 <= e < front.len() && 0 <= i < front[e].1.len() && !(
                    #[trigger] front[e].1[i]).plugin && front[e].1[i].id == k && front[e].0
                        == pane_lookup(front)[k];
                assert(!manifest[e].1[i].plugin);
            }
        }
    }
}

/// What is looked up is the id of a pane.
proof fn lemma_entries_are_ids(manifest: Seq<(usize, Seq<PaneView>)>, at: int)
    requires
        0 <= at < all_pane_entries(manifest).len(),
    ensures
        all_pane_entries(manifest)[at].0 <= u32::MAX,
    decreases manifest.len(),
{
    if manifest.len() > 0 {
        let front = all_pane_entries(manifest.drop_last());
        if at < front.len() {
            lemma_entries_are_ids(manifest.drop_last(), at);
        }
    }
}

/// A state that knows the tab of each pane.
pub open spec fn with_lookup(s: StateView) -> StateView {
    StateView { pane_tabs: pane_lookup(s.panes), ..s }
}

impl State {
    /// Finds the tab of each pane anew.
    pub fn rebuild_pane_lookup(&mut self)
        ensures
            final(self)@ == with_lookup(old(self)@),
    {
        self.pane_to_tab_position = build_terminal_pane_lookup(&self.pane_manifest);
    }
}

/// A plugin runs in one of the panes.
pub open spec fn holds_plugin(panes: Seq<PaneView>, plugin_id: u32) -> bool {
    exists|i: int|
        0 <= i < panes.len() && (#[trigger] panes[i]).plugin && panes[i].id == plugin_id
}

/// The position of the first tab with a pane in which a plugin runs.
pub open spec fn plugin_position(manifest: Seq<(usize, Seq<PaneView>)>, plugin_id: u32) -> Option<
    usize,
>
    decreases manifest.len(),
{
    if manifest.len() == 0 {
        None
    } else if holds_plugin(manifest[0].1, plugin_id) {
        Some(manifest[0].0)
    } else {
        plugin_position(manifest.drop_first(), plugin_id)
    }
}

fn runs_plugin(panes: &Vec<PaneInfo>, plugin_id: u32) -> (r: bool)
    ensures
        r == holds_plugin(pane_views(panes@), plugin_id),
{
    let mut i: usize = 0;
    while i < panes.len()
        invariant
            i <= panes.len(),
            forall|j: int|
                0 <= j < i ==> !((#[trigger] pane_views(panes@)[j]).plugin && pane_views(
                    panes@,
                )[j].id == plugin_id),
        decreases panes.len() - i,
    {
        assert(pane_views(panes@)[i as int] == panes@[i as int]@);
        if panes[i].is_plugin && panes[i].id == plugin_id {
            return true;
        }
        i = i + 1;
    }
    false
}

impl State {
    /// The position of the tab in which this plugin runs, where it is known.
    pub fn own_plugin_tab_position(&self) -> (r: Option<usize>)
        ensures
            r == match self@.plugin_id {
                Some(plugin_id) => plugin_position(self@.panes, plugin_id),
                None => None,
            },
    {
        let plugin_id: u32 = match self.plugin_id {
            Some(plugin_id) => plugin_id,
            None => {
                return None;
            },
        };
        let panes = &self.pane_manifest.panes;
        let ghost all = self@.panes;
        let mut i: usize = 0;
        assert(all.skip(0) =~= all);
        while i < panes.len()
            invariant
                i <= panes.len(),
                panes == self.pane_manifest.panes,
                all == self.pane_manifest@,
                all == self@.panes,
                self@.plugin_id == Some(plugin_id),
                plugin_position(all, plugin_id) == plugin_position(all.skip(i as int), plugin_id),
            decreases panes.len() - i,
        {
            assert(all.skip(i as int)[0] == (panes@[i as int].0, pane_views(panes@[i as int].1@)));
            assert(all.skip(i as int).drop_first() =~= all.skip(i + 1));
            if runs_plugin(&panes[i].1, plugin_id) {
                return Some(panes[i].0);
            }
            i = i + 1;
        }
        None
    }
}

// ---------------------------------------------------------------------------------------
// Roles
// ---------------------------------------------------------------------------------------

/// The role of a plugin that need not claim it.
pub open spec fn role_unclaimed(s: StateView) -> Option<WriteRole> {
    if !s.ready {
        Some(WriteRole::Unavailable)
    } else if s.plugin_id is None {
        Some(WriteRole::Leader)
    } else if !has_store(s) {
        Some(WriteRole::Unavailable)
    } else {
        None
    }
}

/// A state that remembers a role found at a time.
pub open spec fn with_role(s: StateView, role: WriteRole, now_ms: u128) -> StateView {
    StateView { role: Some(role), role_at_ms: now_ms, ..s }
}

impl State {
    /// The role of this plugin, where it is known: found not long ago, or without a claim. Where
    /// it is not known, it has to be claimed.
    pub fn write_role(&mut self, now_ms: u128) -> (r: Option<WriteRole>)
        ensures
            match cached_role(old(self)@.role, old(self)@.role_at_ms, now_ms) {
                Some(role) => r == Some(role) && final(self)@ == old(self)@,
                None => r == role_unclaimed(old(self)@) && final(self)@ == match r {
                    Some(role) => with_role(old(self)@, role, now_ms),
                    None => old(self)@,
                },
            },
    {
        if let Some(role) = role_in_cache(
            self.cached_write_role,
            self.cached_write_role_checked_at_ms,
            now_ms,
        ) {
            return Some(role);
        }
        let role = if !self.shared_state_ready {
            WriteRole::Unavailable
        } else if self.plugin_id.is_none() {
            WriteRole::Leader
        } else if self.session_key().is_none() {
            WriteRole::Unavailable
        } else {
            return None;
        };
        self.cached_write_role = Some(role);
        self.cached_write_role_checked_at_ms = now_ms;
        Some(role)
    }

    /// Takes over the role that was claimed.
    pub fn settle_write_role(&mut self, leads: bool, now_ms: u128) -> (r: WriteRole)
        ensures
            r == (if leads {
                WriteRole::Leader
            } else {
                WriteRole::Follower
            }),
            final(self)@ == with_role(old(self)@, r, now_ms),
    {
        let role = if leads {
            WriteRole::Leader
        } else {
            WriteRole::Follower
        };
        self.cached_write_role = Some(role);
        self.cached_write_role_checked_at_ms = now_ms;
        role
    }
}

// ---------------------------------------------------------------------------------------
// Events
// ---------------------------------------------------------------------------------------

/// Work that an event leaves to be done, in order: an event that waited is delivered, rows are
/// brought in step with the tabs, or updates that wait are handled. `affects_render` says
/// whether a change that comes of it is shown.
#[derive(Debug)]
pub enum Task {
    Deliver(Event),
    Reconcile { affects_render: bool },
    Replay { affects_render: bool },
}

/// What comes of an event.
#[derive(Debug)]
pub struct UpdateStep {
    pub should_render: bool,
    pub tasks: Vec<Task>,
    pub effects: Vec<Effect>,
}

/// What an [`UpdateStep`] stands for.
#[verifier::ext_equal]
pub struct StepView {
    pub should_render: bool,
    pub tasks: Seq<Task>,
    pub effects: Seq<EffectView>,
}

impl View for UpdateStep {
    type V = StepView;

    open spec fn view(&self) -> StepView {
        StepView {
            should_render: self.should_render,
            tasks: self.tasks@,
            effects: effect_views(self.effects@),
        }
    }
}

/// Nothing comes of an event.
pub open spec fn quiet_step() -> StepView {
    StepView { should_render: false, tasks: Seq::empty(), effects: Seq::empty() }
}

/// The index, counted from one, of the first active tab; that of the first tab where none is.
pub open spec fn active_from(tabs: Seq<TabView>, i: int) -> int
    decreases tabs.len() - i,
{
    if i >= tabs.len() {
        1
    } else if tabs[i].active {
        i + 1
    } else {
        active_from(tabs, i + 1)
    }
}

/// Asks for the shared folder, where that was not done yet.
pub open spec fn mount_wanted(s: StateView) -> bool {
    !s.ready && !s.mount_requested
}

/// A state after the shared folder was asked for.
pub open spec fn mounting(s: StateView) -> StateView {
    if !mount_wanted(s) {
        s
    } else if s.folder is None {
        StateView {
            load_error: Some(
                "super-tabs: no shared state folder configured and HOME/XDG_DATA_HOME unavailable"@,
            ),
            ..s
        }
    } else {
        StateView { mount_requested: true, ..s }
    }
}

/// The effects of asking for the shared folder.
pub open spec fn mount_effects(s: StateView) -> Seq<EffectView> {
    if mount_wanted(s) && s.folder is Some {
        seq![EffectView::ChangeHostFolder(s.folder->0)]
    } else {
        Seq::empty()
    }
}

/// What comes of an event once the plugin may act.
pub open spec fn after_event(s: StateView, event: Event) -> (StateView, StepView) {
    match event {
        Event::ModeUpdate(mode) => (
            StateView { mode: mode@, ..s },
            StepView {
                should_render: s.mode != mode@,
                tasks: seq![Task::Replay { affects_render: true }],
                effects: Seq::empty(),
            },
        ),
        Event::Visible(visible) => (
            s,
            StepView {
                tasks: if visible {
                    seq![Task::Reconcile { affects_render: true }]
                } else {
                    Seq::empty()
                },
                ..quiet_step()
            },
        ),
        Event::TabUpdate(tabs) => {
            let views = tab_views(tabs@);
            let active = active_from(views, 0) as usize;
            (
                with_lookup(StateView { tabs: views, active, ..s }),
                StepView {
                    should_render: s.active != active || s.tabs != views,
                    tasks: seq![Task::Reconcile { affects_render: true }],
                    effects: Seq::empty(),
                },
            )
        },
        Event::PaneUpdate(manifest) => (
            with_lookup(StateView { panes: manifest@, ..s }),
            StepView {
                should_render: true,
                tasks: seq![
                    Task::Reconcile { affects_render: false },
                    Task::Replay { affects_render: false },
                ],
                effects: Seq::empty(),
            },
        ),
        Event::HostFolderChanged(wanted) => (
            StateView { mount_requested: false, ready: s.ready || wanted, ..s },
            StepView {
                tasks: if wanted {
                    seq![
                        Task::Reconcile { affects_render: true },
                        Task::Replay { affects_render: true },
                    ]
                } else {
                    Seq::empty()
                },
                ..quiet_step()
            },
        ),
        Event::FailedToChangeHostFolder(error) => (
            StateView {
                mount_requested: false,
                ready: false,
                load_error: Some(
                    "super-tabs failed to mount shared state folder: "@ + match error {
                        Some(message) => message@,
                        None => "unknown error"@,
                    },
                ),
                ..s
            },
            StepView { should_render: true, ..quiet_step() },
        ),
        Event::LeftClick(row) => (
            s,
            StepView {
                effects: match tab_clicked(s, row as int) {
                    Some(index) => seq![EffectView::SwitchTab(index as usize)],
                    None => Seq::empty(),
                },
                ..quiet_step()
            },
        ),
        Event::ScrollUp => (
            s,
            StepView {
                effects: seq![
                    EffectView::SwitchTab(
                        if s.active <= 1 {
                            1
                        } else {
                            (s.active - 1) as usize
                        },
                    ),
                ],
                ..quiet_step()
            },
        ),
        Event::ScrollDown => (
            s,
            StepView {
                effects: seq![
                    EffectView::SwitchTab(
                        if s.active < s.tabs.len() {
                            (s.active + 1) as usize
                        } else {
                            s.tabs.len() as usize
                        },
                    ),
                ],
                ..quiet_step()
            },
        ),
        Event::PermissionRequestResult(_) | Event::Other => (s, quiet_step()),
    }
}

/// Events that are delivered, in order.
pub open spec fn deliveries(events: Seq<Event>) -> Seq<Task> {
    events.map_values(|e: Event| Task::Deliver(e))
}

/// What comes of an event. Until the plugin may act, all events wait. Once it may, it cannot be
/// selected, the shared folder is asked for, and the events that waited are delivered.
pub open spec fn updated(s: StateView, event: Event) -> (StateView, StepView) {
    match event {
        Event::PermissionRequestResult(granted) => if granted {
            let s1 = StateView { granted: true, selectable: false, ..s };
            (
                StateView { events: Seq::empty(), ..mounting(s1) },
                StepView {
                    should_render: true,
                    tasks: deliveries(s.events),
                    effects: seq![EffectView::SetSelectable(false)] + mount_effects(s1),
                },
            )
        } else {
            (s, quiet_step())
        },
        _ => if !s.granted {
            (StateView { events: s.events.push(event), ..s }, quiet_step())
        } else {
            after_event(s, event)
        },
    }
}

fn find_active(tabs: &Vec<TabInfo>) -> (r: usize)
    ensures
        r == active_from(tab_views(tabs@), 0),
{
    let ghost all = tab_views(tabs@);
    let mut i: usize = 0;
    while i < tabs.len()
        invariant
            i <= tabs.len(),
            all == tab_views(tabs@),
            active_from(all, 0) == active_from(all, i as int),
        decreases tabs.len() - i,
    {
        assert(all[i as int] == tabs@[i as int]@);
        if tabs[i].active {
            return i + 1;
        }
        i = i + 1;
    }
    1
}

fn step(should_render: bool, tasks: Vec<Task>) -> (r: UpdateStep)
    ensures
        r@ == (StepView { should_render, tasks: tasks@, effects: Seq::empty() }),
{
    let effects: Vec<Effect> = Vec::new();
    assert(effect_views(effects@) =~= Seq::<EffectView>::empty());
    UpdateStep { should_render, tasks, effects }
}

fn effect_step(effect: Effect) -> (r: UpdateStep)
    ensures
        r@ == (StepView { effects: seq![effect@], ..quiet_step() }),
{
    let mut r = step(false, Vec::new());
    r.effects.push(effect);
    assert(effect_views(r.effects@) =~= seq![effect@]);
    assert(r.tasks@ =~= Seq::<Task>::empty());
    r
}

impl State {
    fn request_shared_state_mount(&mut self, effects: &mut Vec<Effect>)
        ensures
            final(self)@ == mounting(old(self)@),
            effect_views(final(effects)@) == effect_views(old(effects)@) + mount_effects(
                old(self)@,
            ),
    {
        let ghost before = effect_views(effects@);
        assert(before + Seq::<EffectView>::empty() =~= before);
        if self.shared_state_ready || self.shared_state_mount_requested {
            return;
        }
        match &self.shared_state_host_folder {
            None => {
                self.load_error = Some(
                    "super-tabs: no shared state folder configured and HOME/XDG_DATA_HOME unavailable".to_owned(),
                );
            },
            Some(folder) => {
                let effect = Effect::ChangeHostFolder(folder.clone());
                proof {
                    lemma_effect_pushed(effects@, effect);
                    assert(before.push(effect@) =~= before + seq![effect@]);
                }
                effects.push(effect);
                self.shared_state_mount_requested = true;
            },
        }
    }

    fn grant(&mut self) -> (r: UpdateStep)
        ensures
            (final(self)@, r@) == updated(old(self)@, Event::PermissionRequestResult(true)),
    {
        self.permissions_granted = true;
        self.is_selectable = false;
        let mut effects: Vec<Effect> = Vec::new();
        effects.push(Effect::SetSelectable(false));
        assert(effect_views(effects@) =~= seq![EffectView::SetSelectable(false)]);
        self.request_shared_state_mount(&mut effects);
        let ghost events = self.pending_events@;
        let mut waiting: Vec<Event> = Vec::new();
        std::mem::swap(&mut self.pending_events, &mut waiting);
        let mut tasks: Vec<Task> = Vec::new();
        while waiting.len() > 0
            invariant
                tasks@.len() + waiting@.len() == events.len(),
                waiting@ == events.skip(tasks@.len() as int),
                forall|j: int| 0 <= j < tasks@.len() ==> #[trigger] tasks@[j] == Task::Deliver(
                    events[j],
                ),
            decreases waiting.len(),
        {
            let event = waiting.remove(0);
            tasks.push(Task::Deliver(event));
            assert(waiting@ =~= events.skip(tasks@.len() as int));
        }
        assert(tasks@ =~= deliveries(events));
        assert(self.pending_events@ =~= Seq::<Event>::empty());
        UpdateStep { should_render: true, tasks, effects }
    }

    /// Takes in an event. Says what comes of it.
    pub fn update(&mut self, event: Event) -> (r: UpdateStep)
        requires
            fits_columns(old(self)@),
        ensures
            (final(self)@, r@) == updated(old(self)@, event),
            fits_columns(final(self)@),
    {
        if let Event::PermissionRequestResult(granted) = event {
            if granted {
                return self.grant();
            }
            return step(false, Vec::new());
        }
        if !self.permissions_granted {
            self.pending_events.push(event);
            return step(false, Vec::new());
        }
        let mut tasks: Vec<Task> = Vec::new();
        match event {
            Event::ModeUpdate(mode) => {
                let changed = !self.mode_info.agrees(&mode);
                self.mode_info = mode;
                tasks.push(Task::Replay { affects_render: true });
                assert(tasks@ =~= seq![Task::Replay { affects_render: true }]);
                step(changed, tasks)
            },
            Event::Visible(visible) => {
                if visible {
                    tasks.push(Task::Reconcile { affects_render: true });
                    assert(tasks@ =~= seq![Task::Reconcile { affects_render: true }]);
                }
                step(false, tasks)
            },
            Event::TabUpdate(tabs) => {
                let active: usize = find_active(&tabs);
                let changed = self.active_tab_idx != active || !same_tabs(&self.tabs, &tabs);
                self.active_tab_idx = active;
                self.tabs = tabs;
                self.rebuild_pane_lookup();
                tasks.push(Task::Reconcile { affects_render: true });
                assert(tasks@ =~= seq![Task::Reconcile { affects_render: true }]);
                step(changed, tasks)
            },
            Event::PaneUpdate(manifest) => {
                self.pane_manifest = manifest;
                self.rebuild_pane_lookup();
                tasks.push(Task::Reconcile { affects_render: false });
                tasks.push(Task::Replay { affects_render: false });
                assert(tasks@ =~= seq![
                    Task::Reconcile { affects_render: false },
                    Task::Replay { affects_render: false },
                ]);
                step(true, tasks)
            },
            Event::HostFolderChanged(wanted) => {
                self.shared_state_mount_requested = false;
                if wanted {
                    self.shared_state_ready = true;
                    tasks.push(Task::Reconcile { affects_render: true });
                    tasks.push(Task::Replay { affects_render: true });
                    assert(tasks@ =~= seq![
                        Task::Reconcile { affects_render: true },
                        Task::Replay { affects_render: true },
                    ]);
                }
                step(false, tasks)
            },
            Event::FailedToChangeHostFolder(error) => {
                self.shared_state_mount_requested = false;
                self.shared_state_ready = false;
                let mut message = "super-tabs failed to mount shared state folder: ".to_owned();
                match error {
                    Some(error) => message.append(error.as_str()),
                    None => message.append("unknown error"),
                }
                self.load_error = Some(message);
                step(true, tasks)
            },
            Event::LeftClick(row) => match self.get_tab_at_row(row) {
                Some(index) => effect_step(Effect::SwitchTab(index)),
                None => step(false, tasks),
            },
            Event::ScrollUp => effect_step(
                Effect::SwitchTab(
                    if self.active_tab_idx <= 1 {
                        1
                    } else {
                        self.active_tab_idx - 1
                    },
                ),
            ),
            Event::ScrollDown => effect_step(
                Effect::SwitchTab(
                    if self.active_tab_idx < self.tabs.len() {
                        self.active_tab_idx + 1
                    } else {
                        self.tabs.len()
                    },
                ),
            ),
            Event::PermissionRequestResult(_) | Event::Other => step(false, tasks),
        }
    }
}

// ---------------------------------------------------------------------------------------
// Messages
// ---------------------------------------------------------------------------------------

/// What comes of a message: it asks for an update, or it has effects.
#[derive(Debug)]
pub struct PipeStep {
    pub is_update: bool,
    pub effects: Vec<Effect>,
}

/// What comes of a message through the pipe. One under the name of updates asks for an update;
/// others say whether the list can be selected.
pub open spec fn piped(s: StateView, name: Seq<char>, payload: Option<Seq<char>>) -> (
    StateView,
    bool,
    Seq<EffectView>,
) {
    let selecting = |on: bool|
        (StateView { selectable: on, ..s }, false, seq![EffectView::SetSelectable(on)]);
    if name == PIPE_NAME@ {
        (s, payload is Some, Seq::empty())
    } else if name == "set_selectable"@ {
        if payload == Some("true"@) {
            selecting(true)
        } else if payload == Some("false"@) {
            selecting(false)
        } else {
            (s, false, Seq::empty())
        }
    } else if name == "toggle_selectable"@ {
        selecting(!s.selectable)
    } else {
        (s, false, Seq::empty())
    }
}

impl State {
    fn select(&mut self, on: bool) -> (r: PipeStep)
        ensures
            final(self)@ == (StateView { selectable: on, ..old(self)@ }),
            !r.is_update,
            effect_views(r.effects@) == seq![EffectView::SetSelectable(on)],
    {
        self.is_selectable = on;
        let mut effects: Vec<Effect> = Vec::new();
        effects.push(Effect::SetSelectable(on));
        assert(effect_views(effects@) =~= seq![EffectView::SetSelectable(on)]);
        PipeStep { is_update: false, effects }
    }

    /// Takes in a message. Says what comes of it.
    pub fn pipe(&mut self, name: &str, payload: Option<&str>) -> (r: PipeStep)
        requires
            fits_columns(old(self)@),
        ensures
            (final(self)@, r.is_update, effect_views(r.effects@)) == piped(
                old(self)@,
                name@,
                text_view(payload),
            ),
            fits_columns(final(self)@),
    {
        let effects: Vec<Effect> = Vec::new();
        assert(effect_views(effects@) =~= Seq::<EffectView>::empty());
        if same_text(name, PIPE_NAME) {
            return PipeStep { is_update: payload.is_some(), effects };
        }
        if same_text(name, "set_selectable") {
            if let Some(text) = payload {
                if same_text(text, "true") {
                    return self.select(true);
                }
                proof {
                    reveal_strlit("true");
                    reveal_strlit("false");
                    assert("true"@.len() != "false"@.len());
                }
                if same_text(text, "false") {
                    return self.select(false);
                }
            }
            return PipeStep { is_update: false, effects };
        }
        if same_text(name, "toggle_selectable") {
            let on = !self.is_selectable;
            return self.select(on);
        }
        PipeStep { is_update: false, effects }
    }
}

// ---------------------------------------------------------------------------------------
// Laws
// ---------------------------------------------------------------------------------------

/// Every setting of the configuration is taken as it is written, and one that is absent is left
/// as it was. The border goes by its newer key where both are there, and a padding that is not a
/// number is passed over. No setting touches what another one says.
pub proof fn settings_are_taken_as_they_are_written(
    s: StateView,
    config: Map<Seq<char>, Seq<char>>,
    plugin_id: u32,
    xdg_data_home: Option<Seq<char>>,
    home: Option<Seq<char>>,
)
    ensures
        ({
            let before = s.render;
            let after = loaded(s, config, plugin_id, xdg_data_home, home).render;
            &&& config.contains_key("overflow_above"@) ==> after.overflow_above
                == config["overflow_above"@]
            &&& config.contains_key("overflow_below"@) ==> after.overflow_below
                == config["overflow_below"@]
            &&& config.contains_key("indicator_active"@) ==> after.active
                == config["indicator_active"@]
            &&& config.contains_key("indicator_fullscreen"@) ==> after.fullscreen
                == config["indicator_fullscreen"@]
            &&& config.contains_key("indicator_sync"@) ==> after.sync == config["indicator_sync"@]
            &&& config.contains_key("border"@) ==> after.border == config["border"@]
            &&& !config.contains_key("border"@) && config.contains_key("border_char"@)
                ==> after.border == config["border_char"@]
            &&& forall|n: usize|
                config.contains_key("padding_top"@) && config["padding_top"@] == #[trigger] decimal(
                    n as nat,
                ) ==> after.padding_top == n
            &&& !config.contains_key("overflow_above"@) ==> after.overflow_above
                == before.overflow_above
            &&& !config.contains_key("overflow_below"@) ==> after.overflow_below
                == before.overflow_below
            &&& !config.contains_key("indicator_active"@) ==> after.active == before.active
            &&& !config.contains_key("indicator_fullscreen"@) ==> after.fullscreen
                == before.fullscreen
            &&& !config.contains_key("indicator_sync"@) ==> after.sync == before.sync
            &&& !config.contains_key("border"@) && !config.contains_key("border_char"@)
                ==> after.border == before.border
            &&& !config.contains_key("padding_top"@) || number(
                config["padding_top"@],
                10,
                usize::MAX as int,
            ) is None ==> after.padding_top == before.padding_top
        }),
{
    assert forall|n: usize|
        config.contains_key("padding_top"@) && config["padding_top"@] == #[trigger] decimal(
            n as nat,
        ) implies loaded(s, config, plugin_id, xdg_data_home, home).render.padding_top == n by {
        number_reads_decimal(n as nat, usize::MAX as int);
    }
}

/// Loading a plugin shows an error just if the columns or the folder cannot be had, and that of
/// the columns before that of the folder. What can be had is taken either way, and nothing but
/// the settings changes: no row, tab, claim, role or message that waits.
pub proof fn loading_takes_what_it_can(
    s: StateView,
    config: Map<Seq<char>, Seq<char>>,
    plugin_id: u32,
    xdg_data_home: Option<Seq<char>>,
    home: Option<Seq<char>>,
)
    ensures
        ({
            let after = loaded(s, config, plugin_id, xdg_data_home, home);
            let folder = shared_folder(
                if config.contains_key("state_host_folder"@) {
                    Some(config["state_host_folder"@])
                } else {
                    None
                },
                xdg_data_home,
                home,
            );
            let columns = columns_of_config(config);
            &&& after.plugin_id == Some(plugin_id)
            &&& columns matches Ok(found) ==> after.columns == Some(found) && after.widths.len()
                == found.len() && forall|i: int|
                0 <= i < found.len() ==> (#[trigger] after.widths[i]).len() == 0
            &&& columns is Err ==> after.columns == s.columns && after.widths == s.widths
            &&& folder matches Ok(path) ==> after.folder == Some(path)
            &&& folder is Err ==> after.folder == s.folder
            &&& columns matches Err(message) ==> after.load_error == Some(
                "super-tabs config error: "@ + message,
            )
            &&& columns is Ok ==> (folder matches Err(message) ==> after.load_error == Some(
                "super-tabs config error: "@ + message,
            ))
            &&& columns is Ok && folder is Ok ==> after.load_error == s.load_error
            &&& !config.contains_key("debug"@) ==> after.debug == s.debug
            &&& after == (StateView {
                plugin_id: after.plugin_id,
                debug: after.debug,
                render: after.render,
                folder: after.folder,
                columns: after.columns,
                widths: after.widths,
                load_error: after.load_error,
                ..s
            })
        }),
{
}

/// The plugin is found at the position of the first tab that holds it, and nowhere only if no
/// tab does.
pub proof fn the_plugin_is_found_where_it_is(manifest: Seq<(usize, Seq<PaneView>)>, plugin_id: u32)
    ensures
        match plugin_position(manifest, plugin_id) {
            Some(position) => exists|e: int|
                {
                    &&& 0 <= e < manifest.len()
                    &&& (#[trigger] manifest[e]).0 == position
                    &&& exists|i: int|
                        0 <= i < manifest[e].1.len() && (#[trigger] manifest[e].1[i]).plugin
                            && manifest[e].1[i].id == plugin_id
                    &&& forall|o: int, i: int|
                        0 <= o < e && 0 <= i < manifest[o].1.len() && (
                        #[trigger] manifest[o].1[i]).plugin ==> manifest[o].1[i].id != plugin_id
                },
            None => forall|e: int, i: int|
                0 <= e < manifest.len() && 0 <= i < manifest[e].1.len() && (
                #[trigger] manifest[e].1[i]).plugin ==> manifest[e].1[i].id != plugin_id,
        },
    decreases manifest.len(),
{
    if manifest.len() > 0 {
        if holds_plugin(manifest[0].1, plugin_id) {
            let e = 0int;
            assert(manifest[e].0 == manifest[0].0);
            let i = choose|i: int|
                0 <= i < manifest[0].1.len() && (#[trigger] manifest[0].1[i]).plugin
                    && manifest[0].1[i].id == plugin_id;
            assert(manifest[e].1[i].plugin);
        } else {
            let later = manifest.drop_first();
            the_plugin_is_found_where_it_is(later, plugin_id);
            assert forall|i: int|
                0 <= i < manifest[0].1.len() && (
                #[trigger] manifest[0].1[i]).plugin implies manifest[0].1[i].id != plugin_id by {}
            if let Some(position) = plugin_position(later, plugin_id) {
                let k = choose|e: int|
                    {
                        &&& 0 <= e < later.len()
                        &&& (#[trigger] later[e]).0 == position
                        &&& exists|i: int|
                            0 <= i < later[e].1.len() && (#[trigger] later[e].1[i]).plugin
                                && later[e].1[i].id == plugin_id
                        &&& forall|o: int, i: int|
                            0 <= o < e && 0 <= i < later[o].1.len() && (
                            #[trigger] later[o].1[i]).plugin ==> later[o].1[i].id != plugin_id
                    };
                let e = k + 1;
                assert(manifest[e] == later[k]);
                let i = choose|i: int|
                    0 <= i < later[k].1.len() && (#[trigger] later[k].1[i]).plugin
                        && later[k].1[i].id == plugin_id;
                assert(manifest[e].1[i].plugin);
                assert forall|o: int, i: int|
                    0 <= o < e && 0 <= i < manifest[o].1.len() && (
                    #[trigger] manifest[o].1[i]).plugin implies manifest[o].1[i].id
                    != plugin_id by {
                    if o > 0 {
                        assert(later[o - 1].1[i].plugin);
                    }
                }
                assert(manifest[e].0 == position);
            } else {
                assert forall|e: int, i: int|
                    0 <= e < manifest.len() && 0 <= i < manifest[e].1.len() && (
                    #[trigger] manifest[e].1[i]).plugin implies manifest[e].1[i].id
                    != plugin_id by {
                    if e > 0 {
                        assert(later[e - 1].1[i].plugin);
                    }
                }
            }
        }
    }
}

/// A plugin never writes before the folder that is shared is there. It asks for a claim to lead
/// just if it has an id and the session a store; without an id nobody could ask, and it leads.
pub proof fn nobody_leads_before_the_folder_is_there(s: StateView)
    ensures
        role_unclaimed(s) == Some(WriteRole::Leader) ==> s.ready && s.plugin_id is None,
        role_unclaimed(s) is None <==> s.ready && s.plugin_id is Some && has_store(s),
        !s.ready ==> role_unclaimed(s) == Some(WriteRole::Unavailable),
        s.ready && s.plugin_id is None ==> role_unclaimed(s) == Some(WriteRole::Leader),
        role_unclaimed(s) != Some(WriteRole::Follower),
{
}

proof fn lemma_active_from(tabs: Seq<TabView>, i: int)
    requires
        0 <= i,
    ensures
        (forall|j: int| i <= j < tabs.len() ==> !(#[trigger] tabs[j]).active) ==> active_from(
            tabs,
            i,
        ) == 1,
        (exists|j: int| i <= j < tabs.len() && (#[trigger] tabs[j]).active) ==> {
            let found = active_from(tabs, i);
            &&& i < found <= tabs.len()
            &&& tabs[found - 1].active
            &&& forall|j: int| i <= j < found - 1 ==> !(#[trigger] tabs[j]).active
        },
    decreases tabs.len() - i,
{
    if i < tabs.len() && !tabs[i].active {
        lemma_active_from(tabs, i + 1);
    }
}

/// After the tabs were updated, they are those that were told, the active one is the first of
/// them that says so, or the first of all, and the list is shown anew just if any of this is
/// news. The rows are then brought in step with the tabs.
pub proof fn tab_updates_are_taken_over(s: StateView, tabs: Vec<TabInfo>)
    requires
        s.granted,
        tabs@.len() <= usize::MAX,
    ensures
        ({
            let (after, step) = updated(s, Event::TabUpdate(tabs));
            let told = tab_views(tabs@);
            &&& after.tabs == told
            &&& (exists|i: int| 0 <= i < told.len() && (#[trigger] told[i]).active) ==> {
                &&& 1 <= after.active <= told.len()
                &&& told[after.active - 1].active
                &&& forall|j: int| 0 <= j < after.active - 1 ==> !(#[trigger] told[j]).active
            }
            &&& (forall|i: int| 0 <= i < told.len() ==> !(#[trigger] told[i]).active)
                ==> after.active == 1
            &&& step.should_render <==> after.tabs != s.tabs || after.active != s.active
            &&& step.tasks == seq![Task::Reconcile { affects_render: true }]
            &&& step.effects == Seq::<EffectView>::empty()
            &&& after == (StateView {
                tabs: after.tabs,
                active: after.active,
                pane_tabs: pane_lookup(s.panes),
                ..s
            })
        }),
{
    lemma_active_from(tab_views(tabs@), 0);
}

/// Whatever happens, the panes are looked up in the tabs where they are: the lookup is that of
/// the panes that were told last.
pub proof fn the_lookup_is_that_of_the_panes(s: StateView, event: Event)
    requires
        s.pane_tabs == pane_lookup(s.panes),
    ensures
        ({
            let after = updated(s, event).0;
            &&& after.pane_tabs == pane_lookup(after.panes)
            &&& event matches Event::PaneUpdate(manifest) ==> s.granted ==> after.panes
                == manifest@
            &&& !(event is PaneUpdate) ==> after.panes == s.panes
        }),
{
}

/// The rows are brought in step with the tabs after the list becomes visible, the tabs or the
/// panes change, or the folder is there, and updates that wait are handled after the mode or the
/// panes change, or the folder is there, and at no other time. Where both are due, the rows
/// come first.
pub proof fn events_bring_rows_in_step(s: StateView, event: Event)
    requires
        s.granted,
        !(event is PermissionRequestResult),
    ensures
        ({
            let tasks = updated(s, event).1.tasks;
            let in_step = event == Event::Visible(true) || event is TabUpdate || event is PaneUpdate
                || event == Event::HostFolderChanged(true);
            let replay = event is ModeUpdate || event is PaneUpdate || event
                == Event::HostFolderChanged(true);
            &&& tasks.len() == (if in_step {
                1nat
            } else {
                0
            }) + (if replay {
                1nat
            } else {
                0
            })
            &&& in_step ==> tasks[0] is Reconcile
            &&& replay ==> tasks.last() is Replay
        }),
{
}

/// The events one after the other.
pub open spec fn updated_by_all(s: StateView, events: Seq<Event>) -> StateView
    decreases events.len(),
{
    if events.len() == 0 {
        s
    } else {
        updated(updated_by_all(s, events.drop_last()), events.last()).0
    }
}

/// Nothing is done about events before the user has granted what the plugin asked for: they
/// wait, and nothing else changes. Once it is granted, each of them is delivered, in order, and
/// none waits any longer. A refusal changes nothing.
pub proof fn events_wait_until_they_are_allowed(s: StateView, events: Seq<Event>)
    requires
        !s.granted,
        forall|i: int| 0 <= i < events.len() ==> !(#[trigger] events[i] is PermissionRequestResult),
    ensures
        ({
            let before = updated_by_all(s, events);
            let (after, step) = updated(before, Event::PermissionRequestResult(true));
            &&& before == (StateView { events: s.events + events, ..s })
            &&& updated(before, Event::PermissionRequestResult(false)) == (before, quiet_step())
            &&& after.granted
            &&& after.events == Seq::<Event>::empty()
            &&& step.should_render
            &&& step.tasks.len() == s.events.len() + events.len()
            &&& forall|i: int|
                0 <= i < s.events.len() ==> #[trigger] step.tasks[i] == Task::Deliver(s.events[i])
            &&& forall|i: int|
                0 <= i < events.len() ==> step.tasks[s.events.len() + i] == Task::Deliver(
                    #[trigger] events[i],
                )
        }),
        events.len() > 0 ==> updated(updated_by_all(s, events.drop_last()), events.last()).1
            == quiet_step(),
    decreases events.len(),
{
    if events.len() == 0 {
        assert(s.events + events =~= s.events);
        assert(updated_by_all(s, events) == s);
    } else {
        let front = events.drop_last();
        assert forall|i: int| 0 <= i < front.len() implies !(
        #[trigger] front[i] is PermissionRequestResult) by {
            assert(front[i] == events[i]);
        }
        events_wait_until_they_are_allowed(s, front);
        assert((s.events + front).push(events.last()) =~= s.events + events);
        assert(!(events[events.len() - 1] is PermissionRequestResult));
    }
    let before = updated_by_all(s, events);
    assert forall|i: int| 0 <= i < events.len() implies updated(
        before,
        Event::PermissionRequestResult(true),
    ).1.tasks[s.events.len() + i] == Task::Deliver(#[trigger] events[i]) by {
        assert((s.events + events)[s.events.len() + i] == events[i]);
    }
    assert forall|i: int| 0 <= i < s.events.len() implies #[trigger] updated(
        before,
        Event::PermissionRequestResult(true),
    ).1.tasks[i] == Task::Deliver(s.events[i]) by {
        assert((s.events + events)[i] == s.events[i]);
    }
}

/// The shared folder is asked for when the user grants it, unless it is there or was asked for
/// already: it is not asked for twice until there is an answer. Without a folder to ask for, an
/// error is shown.
pub proof fn the_folder_is_asked_for_once(s: StateView)
    ensures
        ({
            let grant = Event::PermissionRequestResult(true);
            let (after, step) = updated(s, grant);
            let asks = !s.ready && !s.mount_requested;
            &&& asks && s.folder is Some ==> {
                &&& step.effects == seq![
                    EffectView::SetSelectable(false),
                    EffectView::ChangeHostFolder(s.folder->0),
                ]
                &&& after.mount_requested
                &&& after.load_error == s.load_error
            }
            &&& !asks || s.folder is None ==> step.effects == seq![EffectView::SetSelectable(false)]
            &&& asks && s.folder is None ==> after.load_error is Some && !after.mount_requested
            &&& !asks ==> after.load_error == s.load_error && after.mount_requested
                == s.mount_requested
            &&& asks && s.folder is Some ==> updated(after, grant).1.effects == seq![
                EffectView::SetSelectable(false),
            ]
            &&& !after.selectable
            &&& after.ready == s.ready
        }),
{
    let grant = Event::PermissionRequestResult(true);
    assert(updated(s, grant).1.effects =~= if mount_wanted(s) && s.folder is Some {
        seq![EffectView::SetSelectable(false), EffectView::ChangeHostFolder(s.folder->0)]
    } else {
        seq![EffectView::SetSelectable(false)]
    });
    let after = updated(s, grant).0;
    if mount_wanted(s) && s.folder is Some {
        assert(updated(after, grant).1.effects =~= seq![EffectView::SetSelectable(false)]);
    }
}

/// The folder is there once it was mounted, and stays so whatever other folder is mounted, until
/// mounting it fails. Either answer lets it be asked for again. A failure is shown, with what is
/// known of it.
pub proof fn folders_are_there_once_mounted(s: StateView, wanted: bool, error: Option<String>)
    requires
        s.granted,
    ensures
        ({
            let (changed, _) = updated(s, Event::HostFolderChanged(wanted));
            let (failed, step) = updated(s, Event::FailedToChangeHostFolder(error));
            &&& wanted ==> changed.ready
            &&& !wanted ==> changed.ready == s.ready
            &&& !changed.mount_requested
            &&& changed.load_error == s.load_error
            &&& !failed.ready
            &&& !failed.mount_requested
            &&& step.should_render
            &&& error matches Some(message) ==> failed.load_error == Some(
                "super-tabs failed to mount shared state folder: "@ + message@,
            )
            &&& error is None ==> failed.load_error == Some(
                "super-tabs failed to mount shared state folder: "@ + "unknown error"@,
            )
            &&& changed == (StateView { ready: changed.ready, mount_requested: false, ..s })
            &&& failed == (StateView {
                ready: false,
                mount_requested: false,
                load_error: failed.load_error,
                ..s
            })
        }),
{
}

/// Scrolling goes to the tab next to the active one, up or down, and stays at the first and at
/// the last. It leads to a tab that there is, and changes nothing but that.
pub proof fn scrolling_goes_from_tab_to_tab(s: StateView, down: bool)
    requires
        s.granted,
        1 <= s.active <= s.tabs.len() <= usize::MAX,
    ensures
        ({
            let event = if down {
                Event::ScrollDown
            } else {
                Event::ScrollUp
            };
            let (after, step) = updated(s, event);
            let last = if down {
                s.tabs.len() as int
            } else {
                1
            };
            &&& after == s
            &&& !step.should_render
            &&& step.effects.len() == 1
            &&& step.effects[0] matches EffectView::SwitchTab(to) ==> {
                &&& 1 <= to <= s.tabs.len()
                &&& s.active == last ==> to == s.active
                &&& s.active != last && down ==> to == s.active + 1
                &&& s.active != last && !down ==> to == s.active - 1
            }
            &&& step.effects[0] is SwitchTab
        }),
{
}

/// A click on the list asks for the tab that is shown there, and for nothing where none is.
pub proof fn clicks_ask_for_the_tab_that_is_shown(s: StateView, row: usize)
    requires
        s.granted,
    ensures
        ({
            let (after, step) = updated(s, Event::LeftClick(row));
            &&& after == s
            &&& !step.should_render
            &&& step.tasks == Seq::<Task>::empty()
            &&& tab_clicked(s, row as int) matches Some(index) ==> step.effects == seq![
                EffectView::SwitchTab(index as usize),
            ]
            &&& tab_clicked(s, row as int) is None ==> step.effects == Seq::<EffectView>::empty()
        }),
{
}

/// A message can make the list selectable or not, and the terminal is told so: toggling it twice
/// leaves it as it was, and setting it gives what was set. No message changes anything else. An
/// update is one that comes with a text under the name of updates.
pub proof fn messages_select_the_list(s: StateView, name: Seq<char>, payload: Option<Seq<char>>)
    ensures
        ({
            let (after, is_update, effects) = piped(s, name, payload);
            &&& after == (StateView { selectable: after.selectable, ..s })
            &&& is_update <==> name == PIPE_NAME@ && payload is Some
            &&& name == "set_selectable"@ && payload == Some("true"@) ==> after.selectable
            &&& name == "set_selectable"@ && payload == Some("false"@) ==> !after.selectable
            &&& name == "toggle_selectable"@ ==> after.selectable != s.selectable && piped(
                after,
                name,
                payload,
            ).0 == s
            &&& effects.len() == 0 ==> after == s
            &&& effects.len() > 0 ==> effects == seq![EffectView::SetSelectable(after.selectable)]
            &&& effects.len() > 0 <==> name == "toggle_selectable"@ || (name == "set_selectable"@
                && (payload == Some("true"@) || payload == Some("false"@)))
        }),
{
    reveal_strlit("true");
    reveal_strlit("false");
    reveal_strlit("set_selectable");
    reveal_strlit("toggle_selectable");
    reveal_strlit("super-tabs:update");
    assert("true"@.len() != "false"@.len());
    assert("set_selectable"@.len() != "toggle_selectable"@.len());
    assert("set_selectable"@[0] == 's' && "set_selectable"@[1] == 'e');
    assert("toggle_selectable"@[0] == 't');
}

} // verus!
