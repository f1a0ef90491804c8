//! What the plugin knows, and the events that reach it.
use vstd::multiset::Multiset;
use vstd::prelude::*;

use crate::layout::WidthIndex;
use crate::leader::WriteRole;
use crate::map::{Record, TextMap};
use crate::numbers::NumberMap;
use crate::protocol::{PayloadView, UpdatePayload};
use crate::row::{
    ClaimView, PendingTabClaim, PersistedTabState, PersistedView, RowView, TabRowState,
};
use crate::schema::{ColumnView, Schema};
use crate::text::{copy_option, same_option, string_view};

verus! {

// ---------------------------------------------------------------------------------------
// What the host tells
// ---------------------------------------------------------------------------------------

/// A tab. Two tabs have the same `stamp` where they agree in everything else that the host
/// tells of them.
#[derive(Debug, Clone, PartialEq, Eq)]
pub struct TabInfo {
    pub position: usize,
    pub name: String,
    pub active: bool,
    pub is_fullscreen_active: bool,
    pub is_sync_panes_active: bool,
    pub stamp: u64,
}

/// What a [`TabInfo`] stands for.
#[verifier::ext_equal]
pub struct TabView {
    pub position: usize,
    pub name: Seq<char>,
    pub active: bool,
    pub fullscreen: bool,
    pub sync: bool,
    pub stamp: u64,
}

impl View for TabInfo {
    type V = TabView;

    open spec fn view(&self) -> TabView {
        TabView {
            position: self.position,
            name: self.name@,
            active: self.active,
            fullscreen: self.is_fullscreen_active,
            sync: self.is_sync_panes_active,
            stamp: self.stamp,
        }
    }
}

impl Record for TabInfo {
    fn duplicate(&self) -> (r: Self) {
        TabInfo {
            position: self.position,
            name: self.name.clone(),
            active: self.active,
            is_fullscreen_active: self.is_fullscreen_active,
            is_sync_panes_active: self.is_sync_panes_active,
            stamp: self.stamp,
        }
    }

    fn agrees(&self, other: &Self) -> (r: bool) {
        self.position == other.position && self.name.agrees(&other.name) && self.active
            == other.active && self.is_fullscreen_active == other.is_fullscreen_active
            && self.is_sync_panes_active == other.is_sync_panes_active && self.stamp == other.stamp
    }
}

impl TabInfo {
    /// A tab at a position, with a name and nothing else of note.
    pub fn named(position: usize, name: &str) -> (r: Self)
        ensures
            r@ == (TabView {
                position,
                name: name@,
                active: false,
                fullscreen: false,
                sync: false,
                stamp: 0,
            }),
    {
        TabInfo {
            position,
            name: name.to_owned(),
            active: false,
            is_fullscreen_active: false,
            is_sync_panes_active: false,
            stamp: 0,
        }
    }
}

/// What tabs stand for.
pub open spec fn tab_views(tabs: Seq<TabInfo>) -> Seq<TabView> {
    tabs.map_values(|t: TabInfo| t@)
}

/// Whether two lists of tabs agree.
pub fn same_tabs(a: &Vec<TabInfo>, b: &Vec<TabInfo>) -> (r: bool)
    ensures
        r == (tab_views(a@) == tab_views(b@)),
{
    if a.len() != b.len() {
        assert(tab_views(a@).len() != tab_views(b@).len());
        return false;
    }
    let mut i: usize = 0;
    while i < a.len()
        invariant
            i <= a.len(),
            a.len() == b.len(),
            forall|j: int| 0 <= j < i ==> #[trigger] tab_views(a@)[j] == tab_views(b@)[j],
        decreases a.len() - i,
    {
        if !a[i].agrees(&b[i]) {
            assert(tab_views(a@)[i as int] != tab_views(b@)[i as int]);
            return false;
        }
        i = i + 1;
    }
    assert(tab_views(a@) =~= tab_views(b@));
    true
}

/// The tab at a position, the first where there are more.
pub open spec fn tab_at(tabs: Seq<TabView>, position: usize) -> Option<TabView>
    decreases tabs.len(),
{
    if tabs.len() == 0 {
        None
    } else if tabs[0].position == position {
        Some(tabs[0])
    } else {
        tab_at(tabs.drop_first(), position)
    }
}

/// Finds the tab at a position.
pub fn find_tab(tabs: &Vec<TabInfo>, position: usize) -> (r: Option<&TabInfo>)
    ensures
        match r {
            Some(tab) => tab_at(tab_views(tabs@), position) == Some(tab@),
            None => tab_at(tab_views(tabs@), position) is None,
        },
{
    let ghost all = tab_views(tabs@);
    let mut i: usize = 0;
    assert(all.skip(0) =~= all);
    while i < tabs.len()
        invariant
            i <= tabs.len(),
            all == tab_views(tabs@),
            tab_at(all, position) == tab_at(all.skip(i as int), position),
        decreases tabs.len() - i,
    {
        assert(all.skip(i as int)[0] == tabs@[i as int]@);
        assert(all.skip(i as int).drop_first() =~= all.skip(i + 1));
        if tabs[i].position == position {
            return Some(&tabs[i]);
        }
        i = i + 1;
    }
    None
}

/// The mode of the session. Two modes have the same `stamp` where they agree in everything
/// but the name of the session.
#[derive(Debug, Clone, PartialEq, Eq)]
pub struct ModeInfo {
    pub session_name: Option<String>,
    pub stamp: u64,
}

/// What a [`ModeInfo`] stands for.
#[verifier::ext_equal]
pub struct ModeView {
    pub session_name: Option<Seq<char>>,
    pub stamp: u64,
}

impl View for ModeInfo {
    type V = ModeView;

    open spec fn view(&self) -> ModeView {
        ModeView { session_name: string_view(self.session_name), stamp: self.stamp }
    }
}

impl Record for ModeInfo {
    fn duplicate(&self) -> (r: Self) {
        ModeInfo { session_name: copy_option(&self.session_name), stamp: self.stamp }
    }

    fn agrees(&self, other: &Self) -> (r: bool) {
        same_option(&self.session_name, &other.session_name) && self.stamp == other.stamp
    }
}

/// A pane of a tab.
#[derive(Debug, Clone, PartialEq, Eq)]
pub struct PaneInfo {
    pub id: u32,
    pub is_plugin: bool,
    pub is_focused: bool,
    pub title: String,
}

/// What a [`PaneInfo`] stands for.
#[verifier::ext_equal]
pub struct PaneView {
    pub id: u32,
    pub plugin: bool,
    pub focused: bool,
    pub title: Seq<char>,
}

impl View for PaneInfo {
    type V = PaneView;

    open spec fn view(&self) -> PaneView {
        PaneView {
            id: self.id,
            plugin: self.is_plugin,
            focused: self.is_focused,
            title: self.title@,
        }
    }
}

/// What panes stand for.
pub open spec fn pane_views(panes: Seq<PaneInfo>) -> Seq<PaneView> {
    panes.map_values(|p: PaneInfo| p@)
}

/// The panes of each tab, by its position.
#[derive(Debug, Clone, PartialEq, Eq)]
pub struct PaneManifest {
    pub panes: Vec<(usize, Vec<PaneInfo>)>,
}

impl View for PaneManifest {
    type V = Seq<(usize, Seq<PaneView>)>;

    open spec fn view(&self) -> Seq<(usize, Seq<PaneView>)> {
        self.panes@.map_values(|e: (usize, Vec<PaneInfo>)| (e.0, pane_views(e.1@)))
    }
}

/// The panes of the tab at a position.
pub open spec fn panes_at(manifest: Seq<(usize, Seq<PaneView>)>, position: usize) -> Seq<PaneView>
    decreases manifest.len(),
{
    if manifest.len() == 0 {
        Seq::empty()
    } else if manifest[0].0 == position {
        manifest[0].1
    } else {
        panes_at(manifest.drop_first(), position)
    }
}

impl PaneManifest {
    /// The place of the panes of the tab at a position, where they are known.
    pub(crate) fn place(&self, position: usize) -> (r: Option<usize>)
        ensures
            match r {
                Some(i) => i < self.panes@.len() && panes_at(self@, position) == pane_views(
                    self.panes@[i as int].1@,
                ),
                None => panes_at(self@, position).len() == 0,
            },
    {
        let mut i: usize = 0;
        assert(self@.skip(0) =~= self@);
        while i < self.panes.len()
            invariant
                i <= self.panes.len(),
                panes_at(self@, position) == panes_at(self@.skip(i as int), position),
            decreases self.panes.len() - i,
        {
            let ghost entry = self.panes@[i as int];
            assert(self@.skip(i as int)[0] == (entry.0, pane_views(entry.1@)));
            assert(self@.skip(i as int).drop_first() =~= self@.skip(i + 1));
            if self.panes[i].0 == position {
                return Some(i);
            }
            i = i + 1;
        }
        None
    }
}

/// What happens to the plugin.
#[derive(Debug, Clone, PartialEq, Eq)]
pub enum Event {
    /// The user granted or refused what the plugin asked for.
    PermissionRequestResult(bool),
    ModeUpdate(ModeInfo),
    Visible(bool),
    TabUpdate(Vec<TabInfo>),
    PaneUpdate(PaneManifest),
    /// A folder was mounted: the one that was asked for, or another.
    HostFolderChanged(bool),
    FailedToChangeHostFolder(Option<String>),
    LeftClick(usize),
    ScrollUp,
    ScrollDown,
    Other,
}

// ---------------------------------------------------------------------------------------
// What is to be done
// ---------------------------------------------------------------------------------------

/// Something to be done to the world.
#[derive(Debug)]
pub enum Effect {
    SetSelectable(bool),
    ChangeHostFolder(String),
    SwitchTab(usize),
    RenameTab { position: usize, name: String },
    WriteRow { key: String, position: usize, row: PersistedTabState },
    WriteClaim { key: String, position: usize, claim: PendingTabClaim },
    ClearClaim { key: String, position: usize },
}

/// What an [`Effect`] stands for.
pub enum EffectView {
    SetSelectable(bool),
    ChangeHostFolder(Seq<char>),
    SwitchTab(usize),
    RenameTab { position: usize, name: Seq<char> },
    WriteRow { key: Seq<char>, position: usize, row: PersistedView },
    WriteClaim { key: Seq<char>, position: usize, claim: ClaimView },
    ClearClaim { key: Seq<char>, position: usize },
}

impl View for Effect {
    type V = EffectView;

    open spec fn view(&self) -> EffectView {
        match *self {
            Effect::SetSelectable(on) => EffectView::SetSelectable(on),
            Effect::ChangeHostFolder(path) => EffectView::ChangeHostFolder(path@),
            Effect::SwitchTab(index) => EffectView::SwitchTab(index),
            Effect::RenameTab { position, name } => EffectView::RenameTab { position, name: name@ },
            Effect::WriteRow { key, position, row } => EffectView::WriteRow {
                key: key@,
                position,
                row: row@,
            },
            Effect::WriteClaim { key, position, claim } => EffectView::WriteClaim {
                key: key@,
                position,
                claim: claim@,
            },
            Effect::ClearClaim { key, position } => EffectView::ClearClaim { key: key@, position },
        }
    }
}

/// What effects stand for.
pub open spec fn effect_views(effects: Seq<Effect>) -> Seq<EffectView> {
    effects.map_values(|e: Effect| e@)
}

/// Adding an effect adds what it stands for.
pub proof fn lemma_effect_pushed(effects: Seq<Effect>, e: Effect)
    ensures
        effect_views(effects.push(e)) == effect_views(effects).push(e@),
{
    assert(effect_views(effects.push(e)) =~= effect_views(effects).push(e@));
}

/// The files of the session as they were read before an update is handled or rows are brought in
/// step, with what was decided about them since, and what is still to be done for that. Whether
/// it gets done shows when the files are read again, for the next update.
#[derive(Debug)]
pub struct Desk {
    pub rows: TextMap<PersistedTabState>,
    pub claims: TextMap<PendingTabClaim>,
    pub effects: Vec<Effect>,
}

/// What a [`Desk`] stands for.
#[verifier::ext_equal]
pub struct DeskView {
    pub rows: Map<Seq<char>, PersistedView>,
    pub claims: Map<Seq<char>, ClaimView>,
    pub effects: Seq<EffectView>,
}

impl View for Desk {
    type V = DeskView;

    open spec fn view(&self) -> DeskView {
        DeskView {
            rows: self.rows@,
            claims: self.claims@,
            effects: effect_views(self.effects@),
        }
    }
}

impl Desk {
    /// A desk with no files on it.
    pub fn new() -> (r: Self)
        ensures
            r@ == (DeskView {
                rows: Map::empty(),
                claims: Map::empty(),
                effects: Seq::empty(),
            }),
    {
        let r = Desk { rows: TextMap::new(), claims: TextMap::new(), effects: Vec::new() };
        assert(effect_views(r.effects@) =~= Seq::<EffectView>::empty());
        r
    }

    /// Adds something to be done.
    pub(crate) fn push(&mut self, effect: Effect)
        ensures
            final(self)@ == (DeskView {
                effects: old(self)@.effects.push(effect@),
                ..old(self)@
            }),
    {
        proof {
            lemma_effect_pushed(self.effects@, effect);
        }
        self.effects.push(effect);
    }
}

// ---------------------------------------------------------------------------------------
// State
// ---------------------------------------------------------------------------------------

/// How the list is shown.
#[derive(Debug, Clone, PartialEq, Eq)]
pub struct RenderConfig {
    pub overflow_above: String,
    pub overflow_below: String,
    pub indicator_active: String,
    pub indicator_fullscreen: String,
    pub indicator_sync: String,
    pub padding_top: usize,
    pub border: String,
}

/// What a [`RenderConfig`] stands for.
#[verifier::ext_equal]
pub struct RenderView {
    pub overflow_above: Seq<char>,
    pub overflow_below: Seq<char>,
    pub active: Seq<char>,
    pub fullscreen: Seq<char>,
    pub sync: Seq<char>,
    pub padding_top: usize,
    pub border: Seq<char>,
}

impl View for RenderConfig {
    type V = RenderView;

    open spec fn view(&self) -> RenderView {
        RenderView {
            overflow_above: self.overflow_above@,
            overflow_below: self.overflow_below@,
            active: self.indicator_active@,
            fullscreen: self.indicator_fullscreen@,
            sync: self.indicator_sync@,
            padding_top: self.padding_top,
            border: self.border@,
        }
    }
}

/// How the list is shown where nothing was configured.
pub open spec fn default_render() -> RenderView {
    RenderView {
        overflow_above: "  ^ +{count}"@,
        overflow_below: "  v +{count}"@,
        active: "*"@,
        fullscreen: "Z"@,
        sync: "S"@,
        padding_top: 0,
        border: Seq::empty(),
    }
}

impl Default for RenderConfig {
    fn default() -> (r: Self)
        ensures
            r@ == default_render(),
    {
        let r = RenderConfig {
            overflow_above: "  ^ +{count}".to_owned(),
            overflow_below: "  v +{count}".to_owned(),
            indicator_active: "*".to_owned(),
            indicator_fullscreen: "Z".to_owned(),
            indicator_sync: "S".to_owned(),
            padding_top: 0,
            border: String::new(),
        };
        assert(r.border@ =~= Seq::<char>::empty());
        r
    }
}

/// What the plugin knows.
#[derive(Debug)]
pub struct State {
    pub tabs: Vec<TabInfo>,
    pub active_tab_idx: usize,
    pub mode_info: ModeInfo,
    pub pane_manifest: PaneManifest,
    pub render: RenderConfig,
    pub schema: Option<Schema>,
    pub plugin_id: Option<u32>,
    pub shared_state_host_folder: Option<String>,
    pub shared_state_mount_requested: bool,
    pub shared_state_ready: bool,
    pub debug_enabled: bool,
    pub rows_by_tab_id: TextMap<TabRowState>,
    pub pending_tab_id_by_position: NumberMap<String>,
    pub pane_to_tab_position: NumberMap<usize>,
    pub width_indexes: Vec<WidthIndex>,
    pub next_tab_id: u64,
    pub last_rows: usize,
    pub permissions_granted: bool,
    pub is_selectable: bool,
    pub pending_events: Vec<Event>,
    pub pending_pipe_updates: Vec<UpdatePayload>,
    pub cached_write_role: Option<WriteRole>,
    pub cached_write_role_checked_at_ms: u128,
    pub load_error: Option<String>,
}

/// What a [`State`] stands for.
#[verifier::ext_equal]
pub struct StateView {
    pub tabs: Seq<TabView>,
    pub active: usize,
    pub mode: ModeView,
    pub panes: Seq<(usize, Seq<PaneView>)>,
    pub render: RenderView,
    pub columns: Option<Seq<ColumnView>>,
    pub plugin_id: Option<u32>,
    pub folder: Option<Seq<char>>,
    pub mount_requested: bool,
    pub ready: bool,
    pub debug: bool,
    pub rows: Map<Seq<char>, RowView>,
    pub pending: Map<usize, Seq<char>>,
    pub pane_tabs: Map<usize, usize>,
    pub widths: Seq<Multiset<usize>>,
    pub next_tab_id: u64,
    pub last_rows: usize,
    pub granted: bool,
    pub selectable: bool,
    pub events: Seq<Event>,
    pub deferred: Seq<PayloadView>,
    pub role: Option<WriteRole>,
    pub role_at_ms: u128,
    pub load_error: Option<Seq<char>>,
}

/// The columns of an optional schema.
pub open spec fn schema_view(schema: Option<Schema>) -> Option<Seq<ColumnView>> {
    match schema {
        Some(schema) => Some(schema@),
        None => None,
    }
}

/// What width indexes stand for.
pub open spec fn index_views(indexes: Seq<WidthIndex>) -> Seq<Multiset<usize>> {
    indexes.map_values(|w: WidthIndex| w@)
}

/// What payloads stand for.
pub open spec fn payload_views(payloads: Seq<UpdatePayload>) -> Seq<PayloadView> {
    payloads.map_values(|p: UpdatePayload| p@)
}

impl View for State {
    type V = StateView;

    open spec fn view(&self) -> StateView {
        StateView {
            tabs: tab_views(self.tabs@),
            active: self.active_tab_idx,
            mode: self.mode_info@,
            panes: self.pane_manifest@,
            render: self.render@,
            columns: schema_view(self.schema),
            plugin_id: self.plugin_id,
            folder: string_view(self.shared_state_host_folder),
            mount_requested: self.shared_state_mount_requested,
            ready: self.shared_state_ready,
            debug: self.debug_enabled,
            rows: self.rows_by_tab_id@,
            pending: self.pending_tab_id_by_position@,
            pane_tabs: self.pane_to_tab_position@,
            widths: index_views(self.width_indexes@),
            next_tab_id: self.next_tab_id,
            last_rows: self.last_rows,
            granted: self.permissions_granted,
            selectable: self.is_selectable,
            events: self.pending_events@,
            deferred: payload_views(self.pending_pipe_updates@),
            role: self.cached_write_role,
            role_at_ms: self.cached_write_role_checked_at_ms,
            load_error: string_view(self.load_error),
        }
    }
}

/// The state before anything happened.
pub open spec fn initial_state() -> StateView {
    StateView {
        tabs: Seq::empty(),
        active: 0,
        mode: ModeView { session_name: None, stamp: 0 },
        panes: Seq::empty(),
        render: default_render(),
        columns: None,
        plugin_id: None,
        folder: None,
        mount_requested: false,
        ready: false,
        debug: false,
        rows: Map::empty(),
        pending: Map::empty(),
        pane_tabs: Map::empty(),
        widths: Seq::empty(),
        next_tab_id: 0,
        last_rows: 0,
        granted: false,
        selectable: false,
        events: Seq::empty(),
        deferred: Seq::empty(),
        role: None,
        role_at_ms: 0,
        load_error: None,
    }
}

/// Every row has a cell for each column, and every column a width index.
pub open spec fn fits_columns(s: StateView) -> bool {
    s.columns is Some ==> {
        &&& s.widths.len() == s.columns->0.len()
        &&& forall|id: Seq<char>| #[trigger]
            s.rows.contains_key(id) ==> s.rows[id].cells.len() == s.columns->0.len()
    }
}

impl Default for State {
    fn default() -> (r: Self)
        ensures
            r@ == initial_state(),
            fits_columns(r@),
    {
        let r = State {
            tabs: Vec::new(),
            active_tab_idx: 0,
            mode_info: ModeInfo { session_name: None, stamp: 0 },
            pane_manifest: PaneManifest { panes: Vec::new() },
            render: RenderConfig::default(),
            schema: None,
            plugin_id: None,
            shared_state_host_folder: None,
            shared_state_mount_requested: false,
            shared_state_ready: false,
            debug_enabled: false,
            rows_by_tab_id: TextMap::new(),
            pending_tab_id_by_position: NumberMap::new(),
            pane_to_tab_position: NumberMap::new(),
            width_indexes: Vec::new(),
            next_tab_id: 0,
            last_rows: 0,
            permissions_granted: false,
            is_selectable: false,
            pending_events: Vec::new(),
            pending_pipe_updates: Vec::new(),
            cached_write_role: None,
            cached_write_role_checked_at_ms: 0,
            load_error: None,
        };
        proof {
            assert(r@.tabs =~= Seq::<TabView>::empty());
            assert(r@.panes =~= Seq::<(usize, Seq<PaneView>)>::empty());
            assert(r@.widths =~= Seq::<Multiset<usize>>::empty());
            assert(r@.events =~= Seq::<Event>::empty());
            assert(r@.deferred =~= Seq::<PayloadView>::empty());
        }
        r
    }
}

// ---------------------------------------------------------------------------------------
// Laws
// ---------------------------------------------------------------------------------------

/// A tab is found by its position: the first one of the list that stands there, and none just if
/// none does.
pub proof fn tabs_are_found_by_their_position(tabs: Seq<TabView>, position: usize)
    ensures
        match tab_at(tabs, position) {
            Some(tab) => exists|i: int|
                {
                    &&& 0 <= i < tabs.len()
                    &&& #[trigger] tabs[i] == tab
                    &&& tab.position == position
                    &&& forall|j: int| 0 <= j < i ==> (#[trigger] tabs[j]).position != position
                },
            None => forall|i: int| 0 <= i < tabs.len() ==> (#[trigger] tabs[i]).position != position,
        },
    decreases tabs.len(),
{
    if tabs.len() > 0 {
        let later = tabs.drop_first();
        tabs_are_found_by_their_position(later, position);
        if tabs[0].position == position {
            assert(tabs[0] == tab_at(tabs, position)->0);
        } else if let Some(tab) = tab_at(later, position) {
            let k = choose|i: int|
                {
                    &&& 0 <= i < later.len()
                    &&& #[trigger] later[i] == tab
                    &&& tab.position == position
                    &&& forall|j: int| 0 <= j < i ==> (#[trigger] later[j]).position != position
                };
            assert(tabs[k + 1] == tab);
            assert forall|j: int| 0 <= j < k + 1 implies (#[trigger] tabs[j]).position
                != position by {
                if j > 0 {
                    assert(later[j - 1] == tabs[j]);
                }
            }
        } else {
            assert forall|i: int| 0 <= i < tabs.len() implies (#[trigger] tabs[i]).position
                != position by {
                if i > 0 {
                    assert(later[i - 1] == tabs[i]);
                }
            }
        }
    }
}

/// The panes of a tab are those of the first entry for its position, and there are none where no
/// entry is for it.
pub proof fn panes_are_found_by_their_position(
    manifest: Seq<(usize, Seq<PaneView>)>,
    position: usize,
)
    ensures
        forall|e: int|
            0 <= e < manifest.len() && (#[trigger] manifest[e]).0 == position && (forall|o: int|
                0 <= o < e ==> (#[trigger] manifest[o]).0 != position) ==> panes_at(
                manifest,
                position,
            ) == manifest[e].1,
        (forall|e: int| 0 <= e < manifest.len() ==> (#[trigger] manifest[e]).0 != position)
            ==> panes_at(manifest, position) == Seq::<PaneView>::empty(),
    decreases manifest.len(),
{
    if manifest.len() > 0 {
        let later = manifest.drop_first();
        panes_are_found_by_their_position(later, position);
        assert forall|e: int|
            0 <= e < manifest.len() && (#[trigger] manifest[e]).0 == position && (forall|o: int|
                0 <= o < e ==> (#[trigger] manifest[o]).0 != position) implies panes_at(
            manifest,
            position,
        ) == manifest[e].1 by {
            if e > 0 {
                assert(manifest[0].0 != position);
                assert(later[e - 1] == manifest[e]);
                assert forall|o: int| 0 <= o < e - 1 implies (#[trigger] later[o]).0
                    != position by {
                    assert(later[o] == manifest[o + 1]);
                }
            }
        }
        if forall|e: int| 0 <= e < manifest.len() ==> (#[trigger] manifest[e]).0 != position {
            assert(manifest[0].0 != position);
            assert forall|e: int| 0 <= e < later.len() implies (#[trigger] later[e]).0
                != position by {
                assert(later[e] == manifest[e + 1]);
            }
        }
    }
}

} // verus!
