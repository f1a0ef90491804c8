//! Rows brought in step with the tabs of the session.
use vstd::multiset::Multiset;
use vstd::prelude::*;

use crate::identity::{
    ensured, ensured_target, has_store, key_at, lemma_ids_change_little, refreshed, resolved,
    same_but_ids,
    terminal_ids, valid_claim, IdentityView, ResolutionView, ResolvedTabTarget,
    TabTargetResolution, TargetView,
};
use crate::ids::{default_name, is_default_zellij_tab_name, IdentityState};
use crate::indexes::{
    add_row_widths_to_indexes, counted_up_to, empty_indexes, indexed, lemma_counted_with,
    lemma_indexed_with, lemma_nothing_indexed, no_widths, same_indexes, widths_with,
};
use crate::layout::WidthIndex;
use crate::leader::WriteRole;
use crate::map::{Record, TextMap};
use crate::markup::{cell_of_plain, cell_of_raw, CellView};
use crate::numbers::NumberMap;
use crate::row::{
    build_row_state_from_tab_name, empty_row, mirrored_name, name_for_row, persisted_of,
    persisted_row, raw_text, row_of_name, row_of_persisted, row_state_from_persisted, row_view,
    rows_are_read_back_from_names, RowView, TabRowState,
};
use crate::schema::{names, ColumnView, Schema};
use crate::state::{
    fits_columns, index_views, panes_at, tab_views, Desk, DeskView, Effect, EffectView, State,
    StateView, TabInfo, TabView,
};
use crate::tab_name::{cell_text, decoded, id_in, plain_key, SUPER_TAB_ID_KEY};
use crate::text::{decimal, decimal_string, same_text};

verus! {

// ---------------------------------------------------------------------------------------
// Where rows come from
// ---------------------------------------------------------------------------------------

/// Where a row came from.
#[derive(Debug, Clone, Copy, PartialEq, Eq, Structural)]
pub enum RowSource {
    Cached,
    PersistedById,
    PersistedByLegacyPosition,
    LiveTabName,
    EmptyNewManagedRow,
}

/// A row, and where it came from.
#[derive(Debug)]
pub struct LoadedRowState {
    pub row: TabRowState,
    pub source: RowSource,
}

/// What a [`LoadedRowState`] stands for.
pub type SourcedRow = (RowView, RowSource);

impl View for LoadedRowState {
    type V = SourcedRow;

    open spec fn view(&self) -> SourcedRow {
        (self.row@, self.source)
    }
}

/// The view of an optional loaded row.
pub open spec fn loaded_view(loaded: Option<LoadedRowState>) -> Option<SourcedRow> {
    match loaded {
        Some(loaded) => Some(loaded@),
        None => None,
    }
}

/// The row that was kept under an id, whatever the name of its tab.
pub open spec fn kept_by_id(
    s: StateView,
    d: DeskView,
    id: Seq<char>,
    columns: Seq<ColumnView>,
) -> Option<RowView> {
    if has_store(s) && d.rows.contains_key(id) {
        row_of_persisted(d.rows[id], columns)
    } else {
        None
    }
}

/// The row that was kept under a key for a tab of the given name.
pub open spec fn kept_for_name(
    s: StateView,
    d: DeskView,
    key: Seq<char>,
    name: Seq<char>,
    columns: Seq<ColumnView>,
) -> Option<RowView> {
    if has_store(s) && d.rows.contains_key(key) && d.rows[key].mirrored_name == name {
        row_of_persisted(d.rows[key], columns)
    } else {
        None
    }
}

/// The row of a tab that has no id: kept under its position, or carried by its name.
pub open spec fn legacy_row(
    s: StateView,
    d: DeskView,
    tab: TabView,
    columns: Seq<ColumnView>,
) -> Option<SourcedRow> {
    match kept_for_name(s, d, decimal(tab.position as nat), tab.name, columns) {
        Some(row) => Some((row, RowSource::PersistedByLegacyPosition)),
        None => match row_of_name(tab.name, columns) {
            Some(row) => Some((row, RowSource::LiveTabName)),
            None => None,
        },
    }
}

impl State {
    /// Reads the row that was kept under an id.
    pub fn read_persisted_row_for_tab_id(&self, desk: &Desk, tab_id: &str, schema: &Schema) -> (r:
        Option<TabRowState>)
        ensures
            row_view(r) == kept_by_id(self@, desk@, tab_id@, schema@),
    {
        if self.session_key().is_none() {
            return None;
        }
        match desk.rows.get(tab_id) {
            Some(persisted) => row_state_from_persisted(persisted, schema),
            None => None,
        }
    }

    /// Reads the row that was kept under a key for a tab.
    pub fn read_persisted_row_by_key(
        &self,
        desk: &Desk,
        tab_key: &str,
        tab: &TabInfo,
        schema: &Schema,
    ) -> (r: Option<TabRowState>)
        ensures
            row_view(r) == kept_for_name(self@, desk@, tab_key@, tab@.name, schema@),
    {
        if self.session_key().is_none() {
            return None;
        }
        match desk.rows.get(tab_key) {
            Some(persisted) => if same_text(persisted.mirrored_name.as_str(), tab.name.as_str()) {
                row_state_from_persisted(persisted, schema)
            } else {
                None
            },
            None => None,
        }
    }

    /// Reads the row of a tab that has no id.
    pub fn read_legacy_row_state(&self, desk: &Desk, tab: &TabInfo, schema: &Schema) -> (r: Option<
        LoadedRowState,
    >)
        ensures
            loaded_view(r) == legacy_row(self@, desk@, tab@, schema@),
    {
        let key = decimal_string(tab.position as u64);
        if let Some(row) = self.read_persisted_row_by_key(desk, key.as_str(), tab, schema) {
            return Some(LoadedRowState { row, source: RowSource::PersistedByLegacyPosition });
        }
        match build_row_state_from_tab_name(tab.name.as_str(), schema) {
            Some(row) => Some(LoadedRowState { row, source: RowSource::LiveTabName }),
            None => None,
        }
    }
}

/// Rows that were read have a cell for each column.
pub proof fn lemma_read_rows_fit(
    s: StateView,
    d: DeskView,
    tab: TabView,
    key: Seq<char>,
    columns: Seq<ColumnView>,
)
    ensures
        kept_by_id(s, d, key, columns) matches Some(row) ==> row.cells.len() == columns.len(),
        kept_for_name(s, d, key, tab.name, columns) matches Some(row) ==> row.cells.len()
            == columns.len(),
        row_of_name(tab.name, columns) matches Some(row) ==> row.cells.len() == columns.len(),
        legacy_row(s, d, tab, columns) matches Some(loaded) ==> loaded.0.cells.len()
            == columns.len(),
{
}

// ---------------------------------------------------------------------------------------
// Plans
// ---------------------------------------------------------------------------------------

/// Something to be done once all rows are known.
#[derive(Debug)]
pub enum ReconcileEffect {
    PersistRow { tab_position: usize, tab_id: String, mirrored_name: String, row: TabRowState },
    RenameTab { tab_position: usize, mirrored_name: String },
}

/// What a [`ReconcileEffect`] stands for.
pub enum PlannedView {
    PersistRow { position: usize, id: Seq<char>, name: Seq<char>, row: RowView },
    RenameTab { position: usize, name: Seq<char> },
}

impl View for ReconcileEffect {
    type V = PlannedView;

    open spec fn view(&self) -> PlannedView {
        match *self {
            ReconcileEffect::PersistRow { tab_position, tab_id, mirrored_name, row } =>
                PlannedView::PersistRow {
                position: tab_position,
                id: tab_id@,
                name: mirrored_name@,
                row: row@,
            },
            ReconcileEffect::RenameTab { tab_position, mirrored_name } => PlannedView::RenameTab {
                position: tab_position,
                name: mirrored_name@,
            },
        }
    }
}

/// What planned effects stand for.
pub open spec fn planned_views(effects: Seq<ReconcileEffect>) -> Seq<PlannedView> {
    effects.map_values(|e: ReconcileEffect| e@)
}

/// Rows that are to be kept have a cell for each column.
pub open spec fn planned_fit(effects: Seq<PlannedView>, n: nat) -> bool {
    forall|i: int|
        0 <= i < effects.len() ==> (#[trigger] effects[i] matches PlannedView::PersistRow {
            row,
            ..
        } ==> row.cells.len() == n)
}

/// What the rows are to be, and what is to be done for it.
#[derive(Debug)]
pub struct ReconcilePlan {
    pub rows_by_tab_id: TextMap<TabRowState>,
    pub pending_tab_id_by_position: NumberMap<String>,
    pub width_indexes: Vec<WidthIndex>,
    pub effects: Vec<ReconcileEffect>,
}

/// What a [`ReconcilePlan`] stands for.
#[verifier::ext_equal]
pub struct PlanView {
    pub rows: Map<Seq<char>, RowView>,
    pub pending: Map<usize, Seq<char>>,
    pub widths: Seq<Multiset<usize>>,
    pub effects: Seq<PlannedView>,
}

impl View for ReconcilePlan {
    type V = PlanView;

    open spec fn view(&self) -> PlanView {
        PlanView {
            rows: self.rows_by_tab_id@,
            pending: self.pending_tab_id_by_position@,
            widths: index_views(self.width_indexes@),
            effects: planned_views(self.effects@),
        }
    }
}

/// A plan in which every row has a cell for each column.
pub open spec fn plan_fits(plan: PlanView, n: nat) -> bool {
    &&& plan.widths.len() == n
    &&& planned_fit(plan.effects, n)
    &&& forall|id: Seq<char>| #[trigger]
        plan.rows.contains_key(id) ==> plan.rows[id].cells.len() == n
}

/// A row under the name that its tab gets for it.
pub open spec fn mirrored_row(columns: Seq<ColumnView>, id: Seq<char>, row: RowView) -> RowView {
    RowView { mirrored: Some(mirrored_name(columns, row.cells, id)), ..row }
}

/// What is to be done for a row: it is kept, and its tab renamed.
pub open spec fn mirror_effects(
    columns: Seq<ColumnView>,
    position: usize,
    id: Seq<char>,
    row: RowView,
) -> Seq<PlannedView> {
    let name = mirrored_name(columns, row.cells, id);
    seq![
        PlannedView::PersistRow { position, id, name, row: mirrored_row(columns, id, row) },
        PlannedView::RenameTab { position, name },
    ]
}

/// Plans to keep a row and to rename its tab. Says so in the row.
pub fn plan_mirror_tab_row(
    tab_position: usize,
    tab_id: &str,
    row: &mut TabRowState,
    schema: &Schema,
    effects: &mut Vec<ReconcileEffect>,
)
    ensures
        final(row)@ == mirrored_row(schema@, tab_id@, old(row)@),
        final(row).cells@.len() == old(row).cells@.len(),
        planned_views(final(effects)@) == planned_views(old(effects)@) + mirror_effects(
            schema@,
            tab_position,
            tab_id@,
            old(row)@,
        ),
{
    let ghost start = row@;
    let ghost before = effects@;
    let name = name_for_row(row, tab_id, schema);
    row.last_mirrored_tab_name = Some(name.clone());
    assert(row@ == mirrored_row(schema@, tab_id@, start));
    effects.push(
        ReconcileEffect::PersistRow {
            tab_position,
            tab_id: tab_id.to_owned(),
            mirrored_name: name.clone(),
            row: row.duplicate(),
        },
    );
    effects.push(ReconcileEffect::RenameTab { tab_position, mirrored_name: name });
    assert(planned_views(effects@) =~= planned_views(before) + mirror_effects(
        schema@,
        tab_position,
        tab_id@,
        start,
    ));
}

/// A tab with its row.
#[derive(Debug)]
pub struct LoadedTabRow {
    pub tab_id: String,
    pub row: TabRowState,
    pub rename_pending: bool,
}

/// What a [`LoadedTabRow`] stands for.
#[verifier::ext_equal]
pub struct LoadedView {
    pub id: Seq<char>,
    pub row: RowView,
    pub rename_pending: bool,
}

impl View for LoadedTabRow {
    type V = LoadedView;

    open spec fn view(&self) -> LoadedView {
        LoadedView { id: self.tab_id@, row: self.row@, rename_pending: self.rename_pending }
    }
}

/// The view of an optional tab with its row.
pub open spec fn tab_row_view(loaded: Option<LoadedTabRow>) -> Option<LoadedView> {
    match loaded {
        Some(loaded) => Some(loaded@),
        None => None,
    }
}

/// The row of a tab that has an id, and what is to be done for it. A tab that is still to be
/// renamed takes the row that was kept under its id, or else the row it had without an id, and
/// is renamed for it. Any other tab takes a row only where it agrees with its name.
pub open spec fn row_for_target(
    s: StateView,
    d: DeskView,
    tab: TabView,
    columns: Seq<ColumnView>,
    target: TargetView,
) -> (Option<LoadedView>, Seq<PlannedView>) {
    let rename_pending = target.policy is PendingRename;
    let id = target.tab_id;
    match target.identity {
        IdentityView::Pending { .. } => {
            let found = match kept_by_id(s, d, id, columns) {
                Some(row) => Some(row),
                None => match legacy_row(s, d, tab, columns) {
                    Some((row, _)) => Some(row),
                    None => None,
                },
            };
            match found {
                Some(row) => (
                    Some(LoadedView { id, row: mirrored_row(columns, id, row), rename_pending }),
                    mirror_effects(columns, tab.position, id, row),
                ),
                None => (None, Seq::empty()),
            }
        },
        IdentityView::Managed => {
            let found = match kept_for_name(s, d, id, tab.name, columns) {
                Some(row) => Some(row),
                None => row_of_name(tab.name, columns),
            };
            match found {
                Some(row) => (Some(LoadedView { id, row, rename_pending }), Seq::empty()),
                None => (None, Seq::empty()),
            }
        },
        _ => (None, Seq::empty()),
    }
}

/// The row of a tab, and what is to be done for it. The leader gives an id to a tab without one
/// that had a row before.
pub open spec fn row_for_tab(
    s: StateView,
    d: DeskView,
    tab: TabView,
    columns: Seq<ColumnView>,
    role: WriteRole,
) -> (StateView, DeskView, Option<LoadedView>, Seq<PlannedView>) {
    let (s1, d1, resolution) = resolved(s, d, tab, role);
    match resolution {
        ResolutionView::Ready(target) => {
            let (loaded, effects) = row_for_target(s1, d1, tab, columns, target);
            (s1, d1, loaded, effects)
        },
        ResolutionView::Unmanaged(_) => match legacy_row(s1, d1, tab, columns) {
            Some((row, _)) => {
                let (s2, d2, target) = ensured_target(s1, d1, tab, true);
                match target {
                    Some(target) => (
                        s2,
                        d2,
                        Some(
                            LoadedView {
                                id: target.tab_id,
                                row: mirrored_row(columns, target.tab_id, row),
                                rename_pending: true,
                            },
                        ),
                        mirror_effects(columns, tab.position, target.tab_id, row),
                    ),
                    None => (s2, d2, None, Seq::empty()),
                }
            },
            None => (s1, d1, None, Seq::empty()),
        },
        _ => (s1, d1, None, Seq::empty()),
    }
}

/// A plan with a row added to it.
pub open spec fn plan_with(plan: PlanView, position: usize, loaded: LoadedView) -> PlanView {
    PlanView {
        rows: plan.rows.insert(loaded.id, loaded.row),
        pending: if loaded.rename_pending {
            plan.pending.insert(position, loaded.id)
        } else {
            plan.pending
        },
        widths: widths_with(plan.widths, loaded.row),
        effects: plan.effects,
    }
}

/// A plan without anything in it.
pub open spec fn empty_plan(n: nat) -> PlanView {
    PlanView {
        rows: Map::empty(),
        pending: Map::empty(),
        widths: no_widths(n),
        effects: Seq::empty(),
    }
}

/// A plan after one more tab. Where another tab has the same id already, the leader gives the
/// tab a new one, with an empty row; others pass it over. The leader claims an id for a tab
/// without a row whose name the terminal gave and that has a terminal pane.
pub open spec fn plan_for_tab(
    s: StateView,
    d: DeskView,
    plan: PlanView,
    tab: TabView,
    columns: Seq<ColumnView>,
    role: WriteRole,
) -> (StateView, DeskView, PlanView) {
    let (s1, d1, loaded, effects) = row_for_tab(s, d, tab, columns, role);
    let plan1 = PlanView { effects: plan.effects + effects, ..plan };
    match loaded {
        None => if role == WriteRole::Leader && default_name(tab.name) && terminal_ids(
            panes_at(s1.panes, tab.position),
        ).len() > 0 {
            let (s2, d2, target) = ensured_target(s1, d1, tab, false);
            match target {
                Some(target) => (
                    s2,
                    d2,
                    PlanView {
                        pending: plan1.pending.insert(tab.position, target.tab_id),
                        ..plan1
                    },
                ),
                None => (s2, d2, plan1),
            }
        } else {
            (s1, d1, plan1)
        },
        Some(loaded) => if !plan.rows.contains_key(loaded.id) {
            (s1, d1, plan_with(plan1, tab.position, loaded))
        } else if role == WriteRole::Leader {
            let (s2, d2, target) = ensured_target(s1, d1, tab, false);
            match target {
                Some(target) => {
                    let id = target.tab_id;
                    let row = empty_row(columns.len());
                    let plan2 = PlanView {
                        effects: plan1.effects + mirror_effects(columns, tab.position, id, row),
                        ..plan1
                    };
                    (
                        s2,
                        d2,
                        plan_with(
                            plan2,
                            tab.position,
                            LoadedView {
                                id,
                                row: mirrored_row(columns, id, row),
                                rename_pending: true,
                            },
                        ),
                    )
                },
                None => (s2, d2, plan1),
            }
        } else {
            (s1, d1, plan1)
        },
    }
}

/// The plan for the first `n` tabs.
pub open spec fn plan_for_tabs(
    s: StateView,
    d: DeskView,
    columns: Seq<ColumnView>,
    role: WriteRole,
    n: int,
) -> (StateView, DeskView, PlanView)
    decreases n,
{
    if n <= 0 {
        (s, d, empty_plan(columns.len()))
    } else {
        let (s1, d1, plan) = plan_for_tabs(s, d, columns, role, n - 1);
        plan_for_tab(s1, d1, plan, s.tabs[n - 1], columns, role)
    }
}

impl State {
    fn load_reconcile_row_for_target(
        &self,
        desk: &Desk,
        tab: &TabInfo,
        schema: &Schema,
        target: ResolvedTabTarget,
        effects: &mut Vec<ReconcileEffect>,
    ) -> (r: Option<LoadedTabRow>)
        requires
            planned_fit(planned_views(old(effects)@), schema@.len()),
        ensures
            tab_row_view(r) == row_for_target(self@, desk@, tab@, schema@, target@).0,
            planned_views(final(effects)@) == planned_views(old(effects)@) + row_for_target(
                self@,
                desk@,
                tab@,
                schema@,
                target@,
            ).1,
            r matches Some(loaded) ==> loaded.row.cells@.len() == schema@.len(),
            planned_fit(planned_views(final(effects)@), schema@.len()),
    {
        let rename_pending = target.rename_pending();
        proof {
            lemma_read_rows_fit(self@, desk@, tab@, target.tab_id@, schema@);
            assert(planned_views(effects@) + Seq::<PlannedView>::empty() =~= planned_views(
                effects@,
            ));
        }
        let mut row = match &target.identity {
            IdentityState::Pending { .. } => match self.read_persisted_row_for_tab_id(
                desk,
                target.tab_id.as_str(),
                schema,
            ) {
                Some(row) => row,
                None => match self.read_legacy_row_state(desk, tab, schema) {
                    Some(loaded) => loaded.row,
                    None => {
                        return None;
                    },
                },
            },
            IdentityState::Managed => {
                let found = match self.read_persisted_row_by_key(
                    desk,
                    target.tab_id.as_str(),
                    tab,
                    schema,
                ) {
                    Some(row) => Some(row),
                    None => build_row_state_from_tab_name(tab.name.as_str(), schema),
                };
                return match found {
                    Some(row) => {
                        assert(row@.cells.len() == row.cells@.len());
                        Some(LoadedTabRow { tab_id: target.tab_id, row, rename_pending })
                    },
                    None => None,
                };
            },
            _ => {
                return None;
            },
        };
        assert(row@.cells.len() == row.cells@.len());
        plan_mirror_tab_row(tab.position, target.tab_id.as_str(), &mut row, schema, effects);
        Some(LoadedTabRow { tab_id: target.tab_id, row, rename_pending })
    }

    fn load_row_state_for_tab(
        &mut self,
        desk: &mut Desk,
        tab: &TabInfo,
        schema: &Schema,
        write_role: WriteRole,
        effects: &mut Vec<ReconcileEffect>,
    ) -> (r: Option<LoadedTabRow>)
        requires
            planned_fit(planned_views(old(effects)@), schema@.len()),
        ensures
            ({
                let (s, d, loaded, planned) = row_for_tab(
                    old(self)@,
                    old(desk)@,
                    tab@,
                    schema@,
                    write_role,
                );
                &&& final(self)@ == s
                &&& final(desk)@ == d
                &&& tab_row_view(r) == loaded
                &&& planned_views(final(effects)@) == planned_views(old(effects)@) + planned
            }),
            r matches Some(loaded) ==> loaded.row.cells@.len() == schema@.len(),
            planned_fit(planned_views(final(effects)@), schema@.len()),
    {
        assert(planned_views(effects@) + Seq::<PlannedView>::empty() =~= planned_views(effects@));
        match self.resolve_tab_target(desk, tab, write_role) {
            TabTargetResolution::Ready(target) => {
                self.load_reconcile_row_for_target(&*desk, tab, schema, target, effects)
            },
            TabTargetResolution::Unmanaged(_) => {
                proof {
                    lemma_read_rows_fit(self@, desk@, tab@, Seq::empty(), schema@);
                }
                let mut row = match self.read_legacy_row_state(&*desk, tab, schema) {
                    Some(loaded) => loaded.row,
                    None => {
                        return None;
                    },
                };
                assert(row@.cells.len() == row.cells@.len());
                match self.ensure_pending_target_for_tab(desk, tab, true) {
                    Some(target) => {
                        plan_mirror_tab_row(
                            tab.position,
                            target.tab_id.as_str(),
                            &mut row,
                            schema,
                            effects,
                        );
                        let rename_pending = target.rename_pending();
                        Some(LoadedTabRow { tab_id: target.tab_id, row, rename_pending })
                    },
                    None => None,
                }
            },
            _ => None,
        }
    }
}

/// A copy of a list of tabs.
fn copy_tabs(tabs: &Vec<TabInfo>) -> (r: Vec<TabInfo>)
    ensures
        tab_views(r@) == tab_views(tabs@),
{
    let mut r: Vec<TabInfo> = Vec::new();
    let mut i: usize = 0;
    while i < tabs.len()
        invariant
            i <= tabs.len(),
            r@.len() == i,
            forall|j: int| 0 <= j < i ==> (#[trigger] r@[j])@ == tabs@[j]@,
        decreases tabs.len() - i,
    {
        r.push(tabs[i].duplicate());
        i = i + 1;
    }
    assert(tab_views(r@) =~= tab_views(tabs@));
    r
}

/// A plan in which every row has a cell for each column stays so when a row is added.
proof fn lemma_plan_with_fits(plan: PlanView, position: usize, loaded: LoadedView, n: nat)
    requires
        plan_fits(plan, n),
        loaded.row.cells.len() == n,
    ensures
        plan_fits(plan_with(plan, position, loaded), n),
{
    let next = plan_with(plan, position, loaded);
    assert forall|id: Seq<char>| #[trigger] next.rows.contains_key(
        id,
    ) implies next.rows[id].cells.len() == n by {
        if id != loaded.id {
            assert(plan.rows.contains_key(id));
        }
    }
}

impl ReconcilePlan {
    /// Adds a row.
    fn add(&mut self, position: usize, loaded: LoadedTabRow)
        requires
            plan_fits(old(self)@, loaded.row.cells@.len()),
            counted_up_to(old(self)@.widths, (usize::MAX - 1) as nat),
        ensures
            final(self)@ == plan_with(old(self)@, position, loaded@),
            plan_fits(final(self)@, loaded.row.cells@.len()),
    {
        proof {
            assert(loaded.row@.cells.len() == loaded.row.cells@.len());
            assert(index_views(self.width_indexes@).len() == self.width_indexes@.len());
            lemma_plan_with_fits(self@, position, loaded@, loaded.row.cells@.len());
        }
        if loaded.rename_pending {
            self.pending_tab_id_by_position.insert(position, loaded.tab_id.clone());
        }
        add_row_widths_to_indexes(&mut self.width_indexes, &loaded.row);
        self.rows_by_tab_id.insert(loaded.tab_id, loaded.row);
    }
}

impl State {
    fn plan_tab(
        &mut self,
        desk: &mut Desk,
        plan: &mut ReconcilePlan,
        tab: &TabInfo,
        schema: &Schema,
        write_role: WriteRole,
    )
        requires
            plan_fits(old(plan)@, schema@.len()),
            counted_up_to(old(plan)@.widths, (usize::MAX - 1) as nat),
        ensures
            (final(self)@, final(desk)@, final(plan)@) == plan_for_tab(
                old(self)@,
                old(desk)@,
                old(plan)@,
                tab@,
                schema@,
                write_role,
            ),
            plan_fits(final(plan)@, schema@.len()),
    {
        let loaded = match self.load_row_state_for_tab(
            desk,
            tab,
            schema,
            write_role,
            &mut plan.effects,
        ) {
            Some(loaded) => loaded,
            None => {
                if write_role.can_write() && is_default_zellij_tab_name(tab.name.as_str())
                    && self.has_terminal_panes_for_tab(tab.position) {
                    if let Some(target) = self.ensure_pending_target_for_tab(desk, tab, false) {
                        plan.pending_tab_id_by_position.insert(tab.position, target.tab_id);
                    }
                }
                return;
            },
        };
        if !plan.rows_by_tab_id.contains_key(loaded.tab_id.as_str()) {
            plan.add(tab.position, loaded);
            return;
        }
        if !write_role.can_write() {
            return;
        }
        if let Some(target) = self.ensure_pending_target_for_tab(desk, tab, false) {
            let mut row = TabRowState::empty(schema);
            plan_mirror_tab_row(
                tab.position,
                target.tab_id.as_str(),
                &mut row,
                schema,
                &mut plan.effects,
            );
            plan.add(
                tab.position,
                LoadedTabRow { tab_id: target.tab_id, row, rename_pending: true },
            );
        }
    }

    /// Finds out what the rows are to be.
    pub fn plan_reconcile_rows_with_tabs(
        &mut self,
        desk: &mut Desk,
        schema: &Schema,
        write_role: WriteRole,
    ) -> (plan: ReconcilePlan)
        ensures
            (final(self)@, final(desk)@, plan@) == plan_for_tabs(
                old(self)@,
                old(desk)@,
                schema@,
                write_role,
                old(self)@.tabs.len() as int,
            ),
            plan_fits(plan@, schema@.len()),
    {
        let tabs = copy_tabs(&self.tabs);
        let ghost s = self@;
        let ghost d = desk@;
        let mut plan = ReconcilePlan {
            rows_by_tab_id: TextMap::new(),
            pending_tab_id_by_position: NumberMap::new(),
            width_indexes: empty_indexes(schema.len()),
            effects: Vec::new(),
        };
        assert(planned_views(plan.effects@) =~= Seq::<PlannedView>::empty());
        assert(plan@ =~= empty_plan(schema@.len()));
        let mut i: usize = 0;
        while i < tabs.len()
            invariant
                i <= tabs.len(),
                tab_views(tabs@) == s.tabs,
                (self@, desk@, plan@) == plan_for_tabs(s, d, schema@, write_role, i as int),
                plan_fits(plan@, schema@.len()),
            decreases tabs.len() - i,
        {
            proof {
                lemma_plan_counts(s, d, schema@, write_role, i as int);
            }
            assert(s.tabs[i as int] == tabs@[i as int]@);
            self.plan_tab(desk, &mut plan, &tabs[i], schema, write_role);
            i = i + 1;
        }
        plan
    }
}

/// No width is counted more often than there are tabs.
proof fn lemma_plan_counts(
    s: StateView,
    d: DeskView,
    columns: Seq<ColumnView>,
    role: WriteRole,
    n: int,
)
    requires
        0 <= n,
    ensures
        counted_up_to(plan_for_tabs(s, d, columns, role, n).2.widths, n as nat),
    decreases n,
{
    if n > 0 {
        let (s1, d1, plan) = plan_for_tabs(s, d, columns, role, n - 1);
        lemma_plan_counts(s, d, columns, role, n - 1);
        let next = plan_for_tabs(s, d, columns, role, n).2;
        if next.widths == plan.widths {
            assert(counted_up_to(plan.widths, n as nat)) by {
                assert forall|i: int, w: usize|
                    0 <= i < plan.widths.len() implies #[trigger] plan.widths[i].count(w)
                    <= n as nat by {
                    assert(plan.widths[i].count(w) <= (n - 1) as nat);
                }
            }
        } else {
            let row = choose|row: RowView| next.widths == #[trigger] widths_with(plan.widths, row);
            assert(next.widths == widths_with(plan.widths, row));
            lemma_counted_with(plan.widths, row, (n - 1) as nat);
        }
    }
}

/// Planning changes nothing in the state but the claims and the next number, and none of the
/// kept rows.
pub proof fn lemma_planning_changes_little(
    s: StateView,
    d: DeskView,
    columns: Seq<ColumnView>,
    role: WriteRole,
    n: int,
)
    ensures
        same_but_ids(s, plan_for_tabs(s, d, columns, role, n).0),
        plan_for_tabs(s, d, columns, role, n).1.rows == d.rows,
    decreases n,
{
    if n > 0 {
        let (s1, d1, plan) = plan_for_tabs(s, d, columns, role, n - 1);
        lemma_planning_changes_little(s, d, columns, role, n - 1);
        let tab = s.tabs[n - 1];
        lemma_ids_change_little(s1, d1, tab, role, true);
        let (s2, d2, resolution) = resolved(s1, d1, tab, role);
        lemma_ids_change_little(s2, d2, tab, role, true);
        let (s3, d3, loaded, effects) = row_for_tab(s1, d1, tab, columns, role);
        lemma_ids_change_little(s3, d3, tab, role, false);
    }
}

// ---------------------------------------------------------------------------------------
// Carrying plans out
// ---------------------------------------------------------------------------------------

/// A desk after a row was kept.
pub open spec fn desk_keeping(
    s: StateView,
    d: DeskView,
    columns: Seq<ColumnView>,
    position: usize,
    id: Seq<char>,
    name: Seq<char>,
    row: RowView,
) -> DeskView {
    if has_store(s) {
        let kept = persisted_of(columns, row, name);
        DeskView {
            rows: d.rows.insert(id, kept),
            effects: d.effects.push(EffectView::WriteRow { key: id, position, row: kept }),
            ..d
        }
    } else {
        d
    }
}

/// A desk with a tab to be renamed.
pub open spec fn desk_renaming(d: DeskView, position: usize, name: Seq<char>) -> DeskView {
    DeskView { effects: d.effects.push(EffectView::RenameTab { position, name }), ..d }
}

/// A desk after a planned effect.
pub open spec fn desk_after(
    s: StateView,
    d: DeskView,
    columns: Seq<ColumnView>,
    effect: PlannedView,
) -> DeskView {
    match effect {
        PlannedView::PersistRow { position, id, name, row } => desk_keeping(
            s,
            d,
            columns,
            position,
            id,
            name,
            row,
        ),
        PlannedView::RenameTab { position, name } => desk_renaming(d, position, name),
    }
}

/// A desk after planned effects, in order.
pub open spec fn desk_after_all(
    s: StateView,
    d: DeskView,
    columns: Seq<ColumnView>,
    effects: Seq<PlannedView>,
) -> DeskView
    decreases effects.len(),
{
    if effects.len() == 0 {
        d
    } else {
        desk_after(
            s,
            desk_after_all(s, d, columns, effects.drop_last()),
            columns,
            effects.last(),
        )
    }
}

/// The rows brought in step with the tabs, and whether they, the claims or the widths changed.
pub open spec fn reconciled(s: StateView, d: DeskView, role: WriteRole) -> (
    StateView,
    DeskView,
    bool,
) {
    match s.columns {
        None => (s, d, false),
        Some(columns) => {
            let (s1, d1, plan) = plan_for_tabs(s, d, columns, role, s.tabs.len() as int);
            let s2 = StateView {
                rows: plan.rows,
                pending: plan.pending,
                widths: plan.widths,
                ..s1
            };
            (
                s2,
                desk_after_all(s2, d1, columns, plan.effects),
                s.rows != plan.rows || s.pending != plan.pending || s.widths != plan.widths,
            )
        },
    }
}

impl State {
    /// Keeps a row.
    pub fn write_persisted_row(
        &self,
        desk: &mut Desk,
        tab_id: &str,
        tab_position: usize,
        mirrored_name: &str,
        row: &TabRowState,
        schema: &Schema,
    )
        requires
            row.cells@.len() == schema@.len(),
        ensures
            final(desk)@ == desk_keeping(
                self@,
                old(desk)@,
                schema@,
                tab_position,
                tab_id@,
                mirrored_name@,
                row@,
            ),
    {
        if self.session_key().is_none() {
            return;
        }
        let kept = persisted_row(row, mirrored_name, schema);
        desk.rows.insert(tab_id.to_owned(), kept.duplicate());
        desk.push(
            Effect::WriteRow { key: tab_id.to_owned(), position: tab_position, row: kept },
        );
    }

    /// Has a tab renamed.
    pub fn rename_live_tab(&self, desk: &mut Desk, tab_position: usize, mirrored_name: &str)
        ensures
            final(desk)@ == desk_renaming(old(desk)@, tab_position, mirrored_name@),
    {
        desk.push(Effect::RenameTab { position: tab_position, name: mirrored_name.to_owned() });
    }

    fn apply_reconcile_effect(&self, desk: &mut Desk, schema: &Schema, effect: &ReconcileEffect)
        requires
            effect@ matches PlannedView::PersistRow { row, .. } ==> row.cells.len()
                == schema@.len(),
        ensures
            final(desk)@ == desk_after(self@, old(desk)@, schema@, effect@),
    {
        match effect {
            ReconcileEffect::PersistRow { tab_position, tab_id, mirrored_name, row } => {
                assert(row@.cells.len() == row.cells@.len());
                self.write_persisted_row(
                    desk,
                    tab_id.as_str(),
                    *tab_position,
                    mirrored_name.as_str(),
                    row,
                    schema,
                );
            },
            ReconcileEffect::RenameTab { tab_position, mirrored_name } => {
                self.rename_live_tab(desk, *tab_position, mirrored_name.as_str());
            },
        }
    }

    /// Takes over the rows of a plan and does what it asks for. Says whether anything changed.
    /// Planning claims ids as it goes, so that the claims are held against `claims_before`.
    pub fn apply_reconcile_plan(
        &mut self,
        desk: &mut Desk,
        schema: &Schema,
        plan: ReconcilePlan,
        claims_before: &NumberMap<String>,
    ) -> (changed: bool)
        requires
            plan_fits(plan@, schema@.len()),
        ensures
            final(self)@ == (StateView {
                rows: plan@.rows,
                pending: plan@.pending,
                widths: plan@.widths,
                ..old(self)@
            }),
            final(desk)@ == desk_after_all(final(self)@, old(desk)@, schema@, plan@.effects),
            changed == (old(self)@.rows != plan@.rows || claims_before@ != plan@.pending
                || old(self)@.widths != plan@.widths),
    {
        let changed = !self.rows_by_tab_id.agrees(&plan.rows_by_tab_id)
            || !claims_before.agrees(&plan.pending_tab_id_by_position)
            || !same_indexes(&self.width_indexes, &plan.width_indexes);
        let ghost start = desk@;
        let ghost all = plan@.effects;
        let effects = plan.effects;
        self.rows_by_tab_id = plan.rows_by_tab_id;
        self.pending_tab_id_by_position = plan.pending_tab_id_by_position;
        self.width_indexes = plan.width_indexes;
        let mut i: usize = 0;
        assert(all.take(0) =~= Seq::<PlannedView>::empty());
        while i < effects.len()
            invariant
                i <= effects.len(),
                all == planned_views(effects@),
                planned_fit(all, schema@.len()),
                desk@ == desk_after_all(self@, start, schema@, all.take(i as int)),
            decreases effects.len() - i,
        {
            proof {
                let t = all.take(i + 1);
                assert(t.drop_last() =~= all.take(i as int));
                assert(t.last() == effects@[i as int]@);
                assert(all[i as int] == effects@[i as int]@);
            }
            self.apply_reconcile_effect(desk, schema, &effects[i]);
            i = i + 1;
        }
        assert(all.take(all.len() as int) =~= all);
        changed
    }

    /// Brings the rows in step with the tabs. Says whether anything changed.
    pub fn reconcile_rows_with_tabs(&mut self, desk: &mut Desk, write_role: WriteRole) -> (changed:
        bool)
        requires
            fits_columns(old(self)@),
        ensures
            (final(self)@, final(desk)@, changed) == reconciled(
                old(self)@,
                old(desk)@,
                write_role,
            ),
            fits_columns(final(self)@),
    {
        let schema = match &self.schema {
            Some(schema) => schema.clone(),
            None => {
                return false;
            },
        };
        proof {
            lemma_planning_changes_little(
                self@,
                desk@,
                schema@,
                write_role,
                self@.tabs.len() as int,
            );
        }
        let claims_before = self.pending_tab_id_by_position.duplicate();
        let plan = self.plan_reconcile_rows_with_tabs(desk, &schema, write_role);
        self.apply_reconcile_plan(desk, &schema, plan, &claims_before)
    }
}

// ---------------------------------------------------------------------------------------
// Laws
// ---------------------------------------------------------------------------------------

/// Only the leader writes: for any other role, bringing rows in step with the tabs leaves the
/// files of the session as they are and has nothing done to the tabs. Afterwards there are no
/// claims, only rows for ids that the names of tabs carry, and width indexes that count just the
/// cells of those rows.
pub proof fn only_the_leader_writes_rows(s: StateView, d: DeskView, role: WriteRole)
    requires
        role != WriteRole::Leader,
    ensures
        reconciled(s, d, role).1 == d,
        s.columns is Some ==> ({
            let after = reconciled(s, d, role).0;
            &&& after.pending == Map::<usize, Seq<char>>::empty()
            &&& forall|id: Seq<char>| #[trigger]
                after.rows.contains_key(id) ==> carried(s.tabs, s.tabs.len() as int, id)
            &&& indexed(after.widths, after.rows, s.columns->0.len())
        }),
{
    if let Some(columns) = s.columns {
        followers_plan_what_the_names_carry(s, d, columns, role, s.tabs.len() as int);
    }
}

/// The name of one of the first `n` tabs carries an id.
pub open spec fn carried(tabs: Seq<TabView>, n: int, id: Seq<char>) -> bool {
    exists|i: int| 0 <= i < n && id_in((#[trigger] tabs[i]).name) == Some(id)
}

/// What a plugin that does not lead plans for the first `n` tabs: nothing to be done and no
/// claims, rows only for ids that the names of those tabs carry, and width indexes that count
/// just the cells of those rows.
pub proof fn followers_plan_what_the_names_carry(
    s: StateView,
    d: DeskView,
    columns: Seq<ColumnView>,
    role: WriteRole,
    n: int,
)
    requires
        role != WriteRole::Leader,
        0 <= n <= s.tabs.len(),
    ensures
        ({
            let (_, desk, plan) = plan_for_tabs(s, d, columns, role, n);
            &&& desk == d
            &&& plan.effects == Seq::<PlannedView>::empty()
            &&& plan.pending == Map::<usize, Seq<char>>::empty()
            &&& plan.rows.dom().finite()
            &&& forall|id: Seq<char>| #[trigger]
                plan.rows.contains_key(id) ==> carried(s.tabs, n, id)
            &&& indexed(plan.widths, plan.rows, columns.len())
        }),
    decreases n,
{
    if n > 0 {
        let (s1, d1, plan) = plan_for_tabs(s, d, columns, role, n - 1);
        let (_, _, next) = plan_for_tabs(s, d, columns, role, n);
        let tab = s.tabs[n - 1];
        followers_plan_what_the_names_carry(s, d, columns, role, n - 1);
        assert(plan.effects + Seq::<PlannedView>::empty() =~= plan.effects);
        let (s2, d2, loaded, _) = row_for_tab(s1, d1, tab, columns, role);
        if let Some(loaded) = loaded {
            lemma_read_rows_fit(s2, d2, tab, loaded.id, columns);
            assert(id_in(tab.name) == Some(loaded.id));
            if !plan.rows.contains_key(loaded.id) {
                lemma_indexed_with(plan.widths, plan.rows, loaded.id, loaded.row, columns.len());
            }
        }
        assert forall|id: Seq<char>| #[trigger] next.rows.contains_key(id) implies carried(
            s.tabs,
            n,
            id,
        ) by {
            if plan.rows.contains_key(id) {
                let i = choose|i: int|
                    0 <= i < n - 1 && id_in((#[trigger] s.tabs[i]).name) == Some(id);
                assert(id_in(s.tabs[i].name) == Some(id));
            } else {
                assert(id_in(s.tabs[n - 1].name) == Some(id));
            }
        }
    } else {
        lemma_nothing_indexed(columns.len());
    }
}

/// A tab whose name its user chose, and which was never written to, is left alone: it gets no
/// row, no id and no other name, for any role.
pub proof fn manual_names_are_left_alone(
    s: StateView,
    d: DeskView,
    plan: PlanView,
    tab: TabView,
    columns: Seq<ColumnView>,
    role: WriteRole,
)
    requires
        decoded(tab.name) is None,
        !default_name(tab.name),
        valid_claim(d, key_at(s, tab.position), tab.name) is None,
        kept_for_name(s, d, decimal(tab.position as nat), tab.name, columns) is None,
    ensures
        plan_for_tab(s, d, plan, tab, columns, role).2 == plan,
{
    let (s1, d1, resolution) = resolved(s, d, tab, role);
    lemma_ids_change_little(s, d, tab, role, true);
    assert(legacy_row(s1, d1, tab, columns) is None);
    assert(plan.effects + Seq::<PlannedView>::empty() =~= plan.effects);
}

/// A tab takes up the row that is kept under the id in its name, if it was kept for that name,
/// whatever the role: each column has a cell just if a text was kept for it, and the cell holds
/// that text as it was written, directives and all. The tab is not renamed and nothing is done.
pub proof fn kept_rows_are_taken_up(
    s: StateView,
    d: DeskView,
    tab: TabView,
    columns: Seq<ColumnView>,
    id: Seq<char>,
    role: WriteRole,
)
    requires
        has_store(s),
        id_in(tab.name) == Some(id),
        role != WriteRole::Leader || valid_claim(d, key_at(s, tab.position), tab.name) is None,
        d.rows.contains_key(id),
        d.rows[id].version == 1,
        d.rows[id].mirrored_name == tab.name,
    ensures
        row_for_tab(s, d, tab, columns, role).2 is Some,
        row_for_tab(s, d, tab, columns, role).3 == Seq::<PlannedView>::empty(),
        ({
            let loaded = row_for_tab(s, d, tab, columns, role).2->0;
            let kept = d.rows[id].cells;
            &&& loaded.id == id
            &&& !loaded.rename_pending
            &&& Some(loaded.row) == row_of_persisted(d.rows[id], columns)
            &&& loaded.row.mirrored == Some(tab.name)
            &&& loaded.row.cells.len() == columns.len()
            &&& forall|i: int| #![trigger loaded.row.cells[i]]
                0 <= i < columns.len() ==> if kept.contains_key(columns[i].name) {
                    &&& loaded.row.cells[i] == Some(
                        cell_of_raw(kept[columns[i].name], columns[i].style),
                    )
                    &&& raw_text(loaded.row.cells[i]) == kept[columns[i].name]
                } else {
                    loaded.row.cells[i] is None
                }
        }),
{
    lemma_ids_change_little(s, d, tab, role, true);
}

/// A tab that the leader has claimed an id for takes up the row that is kept under that id,
/// whatever name it was kept for. The row is kept anew and the tab renamed for it, so that its
/// name carries the id and the texts.
pub proof fn claimed_tabs_take_up_their_rows(
    s: StateView,
    d: DeskView,
    tab: TabView,
    columns: Seq<ColumnView>,
    id: Seq<char>,
)
    requires
        has_store(s),
        valid_claim(d, key_at(s, tab.position), tab.name) == Some(id),
        d.rows.contains_key(id),
        d.rows[id].version == 1,
    ensures
        row_for_tab(s, d, tab, columns, WriteRole::Leader).2 is Some,
        ({
            let (_, _, loaded, planned) = row_for_tab(s, d, tab, columns, WriteRole::Leader);
            let loaded = loaded->0;
            let kept = d.rows[id].cells;
            let name = mirrored_name(columns, loaded.row.cells, id);
            &&& loaded.id == id
            &&& loaded.rename_pending
            &&& loaded.row.mirrored == Some(name)
            &&& loaded.row.cells.len() == columns.len()
            &&& forall|i: int| #![trigger loaded.row.cells[i]]
                0 <= i < columns.len() ==> if kept.contains_key(columns[i].name) {
                    &&& loaded.row.cells[i] == Some(
                        cell_of_raw(kept[columns[i].name], columns[i].style),
                    )
                    &&& raw_text(loaded.row.cells[i]) == kept[columns[i].name]
                } else {
                    loaded.row.cells[i] is None
                }
            &&& planned == seq![
                PlannedView::PersistRow { position: tab.position, id, name, row: loaded.row },
                PlannedView::RenameTab { position: tab.position, name },
            ]
        }),
{
    lemma_ids_change_little(s, d, tab, WriteRole::Leader, true);
}

/// A claimed tab of which nothing is kept under its id takes up what is kept under its
/// position for its name, and else the row that its name carries. A tab without an id does the
/// same if it is the leader who looks at it, under an id that is then claimed for it. Either is
/// renamed for its row. Without any row, nothing is planned.
pub proof fn rows_of_tabs_without_an_id_are_taken_over(
    s: StateView,
    d: DeskView,
    tab: TabView,
    columns: Seq<ColumnView>,
)
    requires
        has_store(s),
        match valid_claim(d, key_at(s, tab.position), tab.name) {
            Some(id) => !d.rows.contains_key(id) || d.rows[id].version != 1,
            None => id_in(tab.name) is None,
        },
    ensures
        ({
            let position = decimal(tab.position as nat);
            let kept = d.rows.contains_key(position) && d.rows[position].mirrored_name == tab.name
                && d.rows[position].version == 1;
            let old = if kept {
                row_of_persisted(d.rows[position], columns)
            } else {
                row_of_name(tab.name, columns)
            };
            let (after, desk, loaded, planned) = row_for_tab(s, d, tab, columns, WriteRole::Leader);
            let id = match valid_claim(d, key_at(s, tab.position), tab.name) {
                Some(id) => Some(id),
                None => ensured(
                    refreshed(s, d, tab).0,
                    refreshed(s, d, tab).1,
                    tab,
                ).2,
            };
            &&& old is None ==> loaded is None
            &&& id is None ==> loaded is None
            &&& loaded is None ==> planned == Seq::<PlannedView>::empty()
            &&& old is Some && id is Some ==> {
                let name = mirrored_name(columns, old->0.cells, id->0);
                let row = RowView { cells: old->0.cells, mirrored: Some(name) };
                &&& loaded == Some(LoadedView { id: id->0, row, rename_pending: true })
                &&& planned == seq![
                    PlannedView::PersistRow { position: tab.position, id: id->0, name, row },
                    PlannedView::RenameTab { position: tab.position, name },
                ]
                &&& valid_claim(desk, key_at(s, tab.position), tab.name) == id
            }
        }),
{
    lemma_ids_change_little(s, d, tab, WriteRole::Leader, true);
    reveal_strlit("st-");
}

/// The name of a tab brings its row back where nothing was kept of it, or what was kept is out of
/// date: the id that the name carries, and the texts of all columns.
pub proof fn names_bring_rows_back(
    s: StateView,
    d: DeskView,
    tab: TabView,
    columns: Seq<ColumnView>,
    cells: Seq<Option<CellView>>,
    id: Seq<char>,
    role: WriteRole,
)
    requires
        forall|i: int|
            0 <= i < columns.len() ==> plain_key((#[trigger] columns[i]).name) && columns[i].name
                != SUPER_TAB_ID_KEY@,
        names(columns).no_duplicates(),
        id.len() > 0,
        exists|i: int| 0 <= i < columns.len() && #[trigger] cell_text(cells, i).len() > 0,
        tab.name == mirrored_name(columns, cells, id),
        !has_store(s) || !d.rows.contains_key(id) || d.rows[id].version != 1
            || d.rows[id].mirrored_name != tab.name,
        role != WriteRole::Leader || !has_store(s) || valid_claim(
            d,
            key_at(s, tab.position),
            tab.name,
        ) is None,
    ensures
        row_for_tab(s, d, tab, columns, role).2 == Some(
            LoadedView {
                id,
                row: RowView {
                    cells: Seq::new(
                        columns.len(),
                        |i: int|
                            if cell_text(cells, i).len() > 0 {
                                Some(cell_of_plain(cell_text(cells, i), columns[i].style))
                            } else {
                                None
                            },
                    ),
                    mirrored: Some(tab.name),
                },
                rename_pending: false,
            },
        ),
{
    rows_are_read_back_from_names(columns, cells, id);
    lemma_ids_change_little(s, d, tab, role, true);
}

/// What one more tab adds to a plan. A tab whose row was found gets it under its id, if no tab
/// before it has that id; it is claimed just if the tab is to be renamed. Of a second tab with
/// the same id others than the leader take no notice; the leader claims an id for it, with a row
/// without texts, and has it renamed. A tab without a row is claimed an id for by the leader if
/// the terminal named it and it holds a terminal pane, and is passed over otherwise.
pub proof fn plans_grow_by_one_tab(
    s: StateView,
    d: DeskView,
    plan: PlanView,
    tab: TabView,
    columns: Seq<ColumnView>,
    role: WriteRole,
)
    ensures
        ({
            let (s1, d1, loaded, planned) = row_for_tab(s, d, tab, columns, role);
            let next = plan_for_tab(s, d, plan, tab, columns, role).2;
            let claim = ensured(s1, d1, tab).2;
            let leads = role == WriteRole::Leader;
            match loaded {
                Some(found) => if !plan.rows.contains_key(found.id) {
                    &&& next.rows.contains_key(found.id)
                    &&& next.rows[found.id] == found.row
                    &&& rows_kept_but(plan.rows, next.rows, found.id)
                    &&& found.rename_pending ==> next.pending == plan.pending.insert(
                        tab.position,
                        found.id,
                    )
                    &&& !found.rename_pending ==> next.pending == plan.pending
                    &&& next.effects == plan.effects + planned
                } else if leads && claim is Some {
                    let id = claim->0;
                    let row = next.rows[id];
                    &&& next.rows.contains_key(id)
                    &&& row.cells.len() == columns.len()
                    &&& forall|i: int| 0 <= i < columns.len() ==> #[trigger] row.cells[i] is None
                    &&& row.mirrored == Some(mirrored_name(columns, row.cells, id))
                    &&& rows_kept_but(plan.rows, next.rows, id)
                    &&& next.pending == plan.pending.insert(tab.position, id)
                    &&& next.effects == plan.effects + planned + seq![
                        PlannedView::PersistRow {
                            position: tab.position,
                            id,
                            name: row.mirrored->0,
                            row,
                        },
                        PlannedView::RenameTab { position: tab.position, name: row.mirrored->0 },
                    ]
                } else {
                    &&& next.rows == plan.rows
                    &&& next.pending == plan.pending
                    &&& next.widths == plan.widths
                    &&& next.effects == plan.effects + planned
                },
                None => {
                    &&& next.rows == plan.rows
                    &&& next.widths == plan.widths
                    &&& next.effects == plan.effects + planned
                    &&& leads && default_name(tab.name) && terminal_ids(
                        panes_at(s.panes, tab.position),
                    ).len() > 0 && claim is Some ==> next.pending == plan.pending.insert(
                        tab.position,
                        claim->0,
                    )
                    &&& !leads || !default_name(tab.name) || terminal_ids(
                        panes_at(s.panes, tab.position),
                    ).len() == 0 || claim is None ==> next.pending == plan.pending
                },
            }
        }),
{
    lemma_ids_change_little(s, d, tab, role, true);
    let (s1, d1, resolution) = resolved(s, d, tab, role);
    lemma_ids_change_little(s1, d1, tab, role, true);
}

/// Rows that are the same but for one id.
pub open spec fn rows_kept_but(
    before: Map<Seq<char>, RowView>,
    after: Map<Seq<char>, RowView>,
    id: Seq<char>,
) -> bool {
    forall|k: Seq<char>|
        k != id ==> (#[trigger] after.contains_key(k) <==> before.contains_key(k)) && after[k]
            == before[k]
}

/// A row that one more tab adds to a plan is counted in its width indexes: where these counted
/// just the rows of the plan, they still do, for any role, as long as no row of the plan was put
/// in the place of another.
pub proof fn plans_count_their_rows(
    s: StateView,
    d: DeskView,
    plan: PlanView,
    tab: TabView,
    columns: Seq<ColumnView>,
    role: WriteRole,
)
    requires
        plan.rows.dom().finite(),
        indexed(plan.widths, plan.rows, columns.len()),
    ensures
        ({
            let next = plan_for_tab(s, d, plan, tab, columns, role).2;
            ||| indexed(next.widths, next.rows, columns.len())
            ||| exists|k: Seq<char>| #[trigger]
                plan.rows.contains_key(k) && next.rows[k] != plan.rows[k]
        }),
{
    let (s1, d1, resolution) = resolved(s, d, tab, role);
    let (s2, d2, loaded, planned) = row_for_tab(s, d, tab, columns, role);
    let next = plan_for_tab(s, d, plan, tab, columns, role).2;
    let n = columns.len();
    if let Some(found) = loaded {
        lemma_read_rows_fit(s1, d1, tab, found.id, columns);
        if !plan.rows.contains_key(found.id) {
            lemma_indexed_with(plan.widths, plan.rows, found.id, found.row, n);
        } else if role == WriteRole::Leader {
            if let Some(id) = ensured(s2, d2, tab).2 {
                let row = mirrored_row(columns, id, empty_row(n));
                if !plan.rows.contains_key(id) {
                    lemma_indexed_with(plan.widths, plan.rows, id, row, n);
                } else if plan.rows[id] == row {
                    assert(next.rows =~= plan.rows);
                    assert(widths_with(plan.widths, row) =~= plan.widths);
                } else {
                    assert(next.rows[id] != plan.rows[id]);
                }
            }
        }
    }
}

/// Without the role of the leader the row of a tab does not depend on what is planned before it.
proof fn lemma_followers_find_the_same(
    s: StateView,
    other: StateView,
    d: DeskView,
    tab: TabView,
    columns: Seq<ColumnView>,
    role: WriteRole,
)
    requires
        role != WriteRole::Leader,
        same_but_ids(s, other),
    ensures
        row_for_tab(other, d, tab, columns, role).2 == row_for_tab(s, d, tab, columns, role).2,
{
    lemma_ids_change_little(s, d, tab, role, true);
    lemma_ids_change_little(other, d, tab, role, true);
}

/// A plugin that does not lead shows a row for each id under which any tab has one, and no other:
/// that of the first tab that has one under it.
pub proof fn followers_show_the_first_row_of_each_id(s: StateView, d: DeskView, role: WriteRole)
    requires
        role != WriteRole::Leader,
        s.columns is Some,
    ensures
        ({
            let after = reconciled(s, d, role).0;
            let row_of = |i: int| row_for_tab(s, d, s.tabs[i], s.columns->0, role).2;
            &&& forall|i: int|
                0 <= i < s.tabs.len() ==> (#[trigger] row_of(i) matches Some(found)
                    ==> after.rows.contains_key(found.id))
            &&& forall|id: Seq<char>| #[trigger]
                after.rows.contains_key(id) ==> exists|i: int|
                    {
                        &&& 0 <= i < s.tabs.len()
                        &&& #[trigger] row_of(i) is Some
                        &&& row_of(i)->0.id == id
                        &&& row_of(i)->0.row == after.rows[id]
                        &&& forall|j: int|
                            0 <= j < i && (#[trigger] row_of(j)) is Some ==> row_of(j)->0.id != id
                    }
        }),
{
    lemma_followers_plan(s, d, s.columns->0, role, s.tabs.len() as int);
}

proof fn lemma_followers_plan(
    s: StateView,
    d: DeskView,
    columns: Seq<ColumnView>,
    role: WriteRole,
    n: int,
)
    requires
        role != WriteRole::Leader,
        0 <= n <= s.tabs.len(),
    ensures
        ({
            let rows = plan_for_tabs(s, d, columns, role, n).2.rows;
            let row_of = |i: int| row_for_tab(s, d, s.tabs[i], columns, role).2;
            &&& forall|i: int|
                0 <= i < n ==> (#[trigger] row_of(i) matches Some(found) ==> rows.contains_key(
                    found.id,
                ))
            &&& forall|id: Seq<char>| #[trigger]
                rows.contains_key(id) ==> exists|i: int|
                    {
                        &&& 0 <= i < n
                        &&& #[trigger] row_of(i) is Some
                        &&& row_of(i)->0.id == id
                        &&& row_of(i)->0.row == rows[id]
                        &&& forall|j: int|
                            0 <= j < i && (#[trigger] row_of(j)) is Some ==> row_of(j)->0.id != id
                    }
        }),
    decreases n,
{
    if n > 0 {
        let row_of = |i: int| row_for_tab(s, d, s.tabs[i], columns, role).2;
        let (s1, d1, plan) = plan_for_tabs(s, d, columns, role, n - 1);
        let rows = plan_for_tabs(s, d, columns, role, n).2.rows;
        lemma_followers_plan(s, d, columns, role, n - 1);
        lemma_planning_changes_little(s, d, columns, role, n - 1);
        followers_plan_what_the_names_carry(s, d, columns, role, n - 1);
        lemma_followers_find_the_same(s, s1, d, s.tabs[n - 1], columns, role);
        plans_grow_by_one_tab(s1, d1, plan, s.tabs[n - 1], columns, role);
        assert(row_for_tab(s1, d1, s.tabs[n - 1], columns, role).2 == row_of(n - 1));
        assert forall|i: int| 0 <= i < n implies (#[trigger] row_of(i) matches Some(found)
            ==> rows.contains_key(found.id)) by {
            if i < n - 1 {
                if let Some(found) = row_of(i) {
                    assert(plan.rows.contains_key(found.id));
                }
            }
        }
        assert forall|id: Seq<char>| #[trigger] rows.contains_key(id) implies exists|i: int|
            {
                &&& 0 <= i < n
                &&& #[trigger] row_of(i) is Some
                &&& row_of(i)->0.id == id
                &&& row_of(i)->0.row == rows[id]
                &&& forall|j: int|
                    0 <= j < i && (#[trigger] row_of(j)) is Some ==> row_of(j)->0.id != id
            } by {
            if plan.rows.contains_key(id) {
                let i = choose|i: int|
                    {
                        &&& 0 <= i < n - 1
                        &&& #[trigger] row_of(i) is Some
                        &&& row_of(i)->0.id == id
                        &&& row_of(i)->0.row == plan.rows[id]
                        &&& forall|j: int|
                            0 <= j < i && (#[trigger] row_of(j)) is Some ==> row_of(j)->0.id != id
                    };
                assert(rows[id] == plan.rows[id]);
                assert(row_of(i) is Some);
            } else {
                assert(row_of(n - 1) is Some);
                assert(row_of(n - 1)->0.id == id);
                assert forall|j: int| 0 <= j < n - 1 && (#[trigger] row_of(j)) is Some implies row_of(
                    j,
                )->0.id != id by {
                    assert(plan.rows.contains_key(row_of(j)->0.id));
                }
            }
        }
    }
}

/// A plan is carried out in its order. Each row that is to be kept is written under its id, with
/// the name of its tab, and each tab that is to be renamed is renamed. Nothing else is done, and
/// what was done before stays.
pub proof fn plans_are_carried_out_in_order(
    s: StateView,
    d: DeskView,
    columns: Seq<ColumnView>,
    effects: Seq<PlannedView>,
)
    requires
        has_store(s),
    ensures
        ({
            let after = desk_after_all(s, d, columns, effects);
            let n = d.effects.len();
            &&& after.effects.len() == n + effects.len()
            &&& d.effects.is_prefix_of(after.effects)
            &&& after.claims == d.claims
            &&& forall|i: int|
                0 <= i < effects.len() ==> match #[trigger] effects[i] {
                    PlannedView::PersistRow { position, id, name, row } => after.effects[n + i]
                        == EffectView::WriteRow {
                        key: id,
                        position,
                        row: persisted_of(columns, row, name),
                    },
                    PlannedView::RenameTab { position, name } => after.effects[n + i]
                        == EffectView::RenameTab { position, name },
                }
        }),
    decreases effects.len(),
{
    if effects.len() > 0 {
        let front = effects.drop_last();
        plans_are_carried_out_in_order(s, d, columns, front);
        let before = desk_after_all(s, d, columns, front);
        let after = desk_after_all(s, d, columns, effects);
        let n = d.effects.len();
        assert forall|i: int| 0 <= i < effects.len() implies match #[trigger] effects[i] {
            PlannedView::PersistRow { position, id, name, row } => after.effects[n + i]
                == EffectView::WriteRow {
                key: id,
                position,
                row: persisted_of(columns, row, name),
            },
            PlannedView::RenameTab { position, name } => after.effects[n + i]
                == EffectView::RenameTab { position, name },
        } by {
            if i < front.len() {
                assert(front[i] == effects[i]);
                assert(after.effects[n + i] == before.effects[n + i]);
            }
        }
    }
}

/// The files of a session agree with what was written to them: the row that a plan keeps last
/// under an id is the one that is found there, and a row of which it says nothing stays.
pub proof fn kept_rows_are_those_kept_last(
    s: StateView,
    d: DeskView,
    columns: Seq<ColumnView>,
    effects: Seq<PlannedView>,
    id: Seq<char>,
)
    requires
        has_store(s),
    ensures
        ({
            let after = desk_after_all(s, d, columns, effects);
            let keeps = |i: int| effects[i] matches PlannedView::PersistRow { id: other, .. } && other
                == id;
            &&& forall|i: int|
                0 <= i < effects.len() && #[trigger] keeps(i) && (forall|j: int|
                    i < j < effects.len() ==> !#[trigger] keeps(j)) ==> after.rows.contains_key(id)
                    && (effects[i] matches PlannedView::PersistRow { name, row, .. }
                    ==> after.rows[id] == persisted_of(columns, row, name))
            &&& (forall|i: int| 0 <= i < effects.len() ==> !#[trigger] keeps(i)) ==> (
            after.rows.contains_key(id) <==> d.rows.contains_key(id)) && after.rows[id]
                == d.rows[id]
        }),
    decreases effects.len(),
{
    if effects.len() > 0 {
        let front = effects.drop_last();
        let last = effects.len() - 1;
        kept_rows_are_those_kept_last(s, d, columns, front, id);
        let after = desk_after_all(s, d, columns, effects);
        let keeps = |i: int| effects[i] matches PlannedView::PersistRow { id: other, .. } && other
            == id;
        let kept = |i: int| front[i] matches PlannedView::PersistRow { id: other, .. } && other
            == id;
        assert forall|i: int| 0 <= i < front.len() implies #[trigger] kept(i) == keeps(i) by {
            assert(front[i] == effects[i]);
        }
        assert forall|i: int|
            0 <= i < effects.len() && #[trigger] keeps(i) && (forall|j: int|
                i < j < effects.len() ==> !#[trigger] keeps(
                    j,
                )) implies after.rows.contains_key(id) && (effects[i] matches PlannedView::PersistRow {
            name,
            row,
            ..
        } ==> after.rows[id] == persisted_of(columns, row, name)) by {
            if i < last {
                assert(!keeps(last));
                assert(kept(i));
                assert(front[i] == effects[i]);
            }
        }
        if forall|i: int| 0 <= i < effects.len() ==> !#[trigger] keeps(i) {
            assert(!keeps(last));
            assert forall|i: int| 0 <= i < front.len() implies !#[trigger] kept(i) by {
                assert(!keeps(i));
            }
        }
    }
}

/// Bringing rows in step changes the rows, the claims, the width indexes and the next number and
/// nothing else, and says whether it changed any of the first three. Without columns it does
/// nothing.
pub proof fn bringing_in_step_says_what_changed(s: StateView, d: DeskView, role: WriteRole)
    ensures
        ({
            let (after, desk, changed) = reconciled(s, d, role);
            &&& s.columns is Some ==> (changed <==> after.rows != s.rows || after.pending
                != s.pending || after.widths != s.widths)
            &&& s.columns is None ==> after == s && desk == d && !changed
            &&& after == (StateView {
                rows: after.rows,
                pending: after.pending,
                widths: after.widths,
                next_tab_id: after.next_tab_id,
                ..s
            })
        }),
{
    if let Some(columns) = s.columns {
        lemma_planning_changes_little(s, d, columns, role, s.tabs.len() as int);
    }
}

proof fn lemma_followers_plan_alike(
    s: StateView,
    other: StateView,
    d: DeskView,
    columns: Seq<ColumnView>,
    role: WriteRole,
    n: int,
)
    requires
        role != WriteRole::Leader,
        0 <= n <= s.tabs.len(),
        other == (StateView {
            rows: other.rows,
            pending: other.pending,
            widths: other.widths,
            next_tab_id: other.next_tab_id,
            ..s
        }),
    ensures
        plan_for_tabs(s, d, columns, role, n).2 == plan_for_tabs(other, d, columns, role, n).2,
    decreases n,
{
    if n > 0 {
        let (s1, d1, plan) = plan_for_tabs(s, d, columns, role, n - 1);
        let (s2, d2, same) = plan_for_tabs(other, d, columns, role, n - 1);
        let tab = s.tabs[n - 1];
        lemma_followers_plan_alike(s, other, d, columns, role, n - 1);
        lemma_planning_changes_little(s, d, columns, role, n - 1);
        lemma_planning_changes_little(other, d, columns, role, n - 1);
        followers_plan_what_the_names_carry(s, d, columns, role, n - 1);
        followers_plan_what_the_names_carry(other, d, columns, role, n - 1);
        assert(has_store(s1) == has_store(s2));
        assert(row_for_tab(s1, d, tab, columns, role).2 == row_for_tab(
            s2,
            d,
            tab,
            columns,
            role,
        ).2);
    }
}

/// A plugin that does not lead has nothing to change if it brings the rows in step twice: the
/// second time gives the rows, claims and width indexes of the first.
pub proof fn followers_are_in_step_at_once(s: StateView, d: DeskView, role: WriteRole)
    requires
        role != WriteRole::Leader,
    ensures
        ({
            let (first, desk, _) = reconciled(s, d, role);
            let (second, again, changed) = reconciled(first, desk, role);
            &&& !changed
            &&& again == d
            &&& second.rows == first.rows
            &&& second.pending == first.pending
            &&& second.widths == first.widths
        }),
{
    only_the_leader_writes_rows(s, d, role);
    let (first, desk, _) = reconciled(s, d, role);
    only_the_leader_writes_rows(first, desk, role);
    bringing_in_step_says_what_changed(s, d, role);
    if let Some(columns) = s.columns {
        lemma_followers_plan_alike(s, first, d, columns, role, s.tabs.len() as int);
    }
}

} // verus!
