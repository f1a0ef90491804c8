//! Updates of columns, as they come through the pipe.
use vstd::prelude::*;

use crate::identity::{
    claimed, claims_are_made_for_new_ids, desk_cleared, ensured, ensured_target, has_store, key_at,
    lemma_ids_change_little, refreshed, resolved, unclaimed, valid_claim, ResolutionView,
    ResolvedTabTarget, RowLoadPolicy, TabTargetResolution, TargetView,
};
use crate::indexes::{
    columns_are_as_wide_as_their_widest_cell, index_rows, indexed, row_widths, rows_can_be_counted,
};
use crate::layout::{greatest, ResizeMode, ResizeSpec};
use crate::leader::WriteRole;
use crate::map::{Record, TextMap};
use crate::protocol::{PayloadView, UpdatePayload};
use crate::reconcile::{
    desk_keeping, desk_renaming, kept_by_id, kept_for_name, kept_rows_are_taken_up, legacy_row,
    lemma_read_rows_fit, mirrored_row, row_for_tab, LoadedRowState, RowSource, SourcedRow,
};
use crate::render::{cell_space, natural_widths, shown_widths};
use crate::row::{
    apply_updates_to_row, build_row_state_from_tab_name, cell_width, empty_row,
    kept_texts_are_read_back, mirrored_name, name_for_row, persisted_of, raw_text, row_of_name, row_of_persisted, updated_cell, updated_row, RowView, TabRowState,
};
use crate::schema::{names, rules, ColumnView, Schema};
use crate::state::{
    find_tab, fits_columns, payload_views, tab_at, Desk, DeskView, EffectView, State, StateView,
    TabInfo, TabView,
};
use crate::tab_name::{id_in, plain_key, tab_names_carry_id_and_texts, SUPER_TAB_ID_KEY};
use crate::text::{decimal, same_option};
use crate::width::text_width;
use crate::widths::columns_are_as_wide_as_their_rules_say;

verus! {

// ---------------------------------------------------------------------------------------
// The row that is updated
// ---------------------------------------------------------------------------------------

/// A state without the row of an id.
pub open spec fn without_row(s: StateView, id: Seq<char>) -> StateView {
    StateView { rows: s.rows.remove(id), ..s }
}

/// A state with a row for an id.
pub open spec fn with_row(s: StateView, id: Seq<char>, row: RowView) -> StateView {
    StateView { rows: s.rows.insert(id, row), ..s }
}

/// The row that is known for an id may be used: it agrees with the name of the tab, or the tab
/// is still to be renamed.
pub open spec fn usable(row: RowView, tab: TabView, policy: RowLoadPolicy) -> bool {
    row.mirrored == Some(tab.name) || policy is PendingRename
}

/// The row of a tab that is not known: kept under its id, or found in the ways of a tab without
/// one, or carried by its name, or empty.
pub open spec fn row_found(
    s: StateView,
    d: DeskView,
    tab: TabView,
    id: Seq<char>,
    columns: Seq<ColumnView>,
    policy: RowLoadPolicy,
) -> SourcedRow {
    let kept = if policy is PendingRename {
        kept_by_id(s, d, id, columns)
    } else {
        kept_for_name(s, d, id, tab.name, columns)
    };
    let fallback = if policy == (RowLoadPolicy::PendingRename { legacy_position_fallback: true }) {
        legacy_row(s, d, tab, columns)
    } else {
        None
    };
    match (kept, fallback, row_of_name(tab.name, columns)) {
        (Some(row), _, _) => (row, RowSource::PersistedById),
        (None, Some(found), _) => found,
        (None, None, Some(row)) => (row, RowSource::LiveTabName),
        (None, None, None) => (empty_row(columns.len()), RowSource::EmptyNewManagedRow),
    }
}

/// The row that an update of a tab starts from. The row that is known leaves the list: it is
/// used, or it is out of date.
pub open spec fn row_for_update(
    s: StateView,
    d: DeskView,
    tab: TabView,
    id: Seq<char>,
    columns: Seq<ColumnView>,
    policy: RowLoadPolicy,
) -> (StateView, SourcedRow) {
    let rest = without_row(s, id);
    if s.rows.contains_key(id) && usable(s.rows[id], tab, policy) {
        (rest, (s.rows[id], RowSource::Cached))
    } else {
        (rest, row_found(rest, d, tab, id, columns, policy))
    }
}

impl State {
    fn load_cached_row_for_identity(&mut self, tab: &TabInfo, tab_id: &str, policy: RowLoadPolicy)
        -> (r: Option<TabRowState>)
        ensures
            final(self)@ == without_row(old(self)@, tab_id@),
            match r {
                Some(row) => old(self)@.rows.contains_key(tab_id@) && row@
                    == old(self)@.rows[tab_id@] && usable(row@, tab@, policy),
                None => !(old(self)@.rows.contains_key(tab_id@) && usable(
                    old(self)@.rows[tab_id@],
                    tab@,
                    policy,
                )),
            },
    {
        match self.rows_by_tab_id.remove(tab_id) {
            Some(row) => {
                let shown = Some(tab.name.clone());
                if same_option(&row.last_mirrored_tab_name, &shown)
                    || policy.allow_live_name_mismatch() {
                    Some(row)
                } else {
                    None
                }
            },
            None => None,
        }
    }

    /// Finds the row that an update of a tab starts from.
    pub fn row_state_for_update(
        &mut self,
        desk: &Desk,
        tab: &TabInfo,
        tab_id: &str,
        schema: &Schema,
        policy: RowLoadPolicy,
    ) -> (r: LoadedRowState)
        ensures
            (final(self)@, r@) == row_for_update(
                old(self)@,
                desk@,
                tab@,
                tab_id@,
                schema@,
                policy,
            ),
    {
        if let Some(row) = self.load_cached_row_for_identity(tab, tab_id, policy) {
            return LoadedRowState { row, source: RowSource::Cached };
        }
        let kept = if policy.allow_live_name_mismatch() {
            self.read_persisted_row_for_tab_id(desk, tab_id, schema)
        } else {
            self.read_persisted_row_by_key(desk, tab_id, tab, schema)
        };
        if let Some(row) = kept {
            return LoadedRowState { row, source: RowSource::PersistedById };
        }
        if policy.allow_legacy_position_fallback() {
            if let Some(loaded) = self.read_legacy_row_state(desk, tab, schema) {
                return loaded;
            }
        }
        match build_row_state_from_tab_name(tab.name.as_str(), schema) {
            Some(row) => LoadedRowState { row, source: RowSource::LiveTabName },
            None => LoadedRowState {
                row: TabRowState::empty(schema),
                source: RowSource::EmptyNewManagedRow,
            },
        }
    }

    /// Counts the widths of all rows anew.
    pub fn recompute_width_indexes(&mut self)
        requires
            fits_columns(old(self)@),
        ensures
            final(self)@ == reindexed(old(self)@),
            fits_columns(final(self)@),
    {
        if let Some(schema) = &self.schema {
            let n: usize = schema.len();
            self.width_indexes = index_rows(&self.rows_by_tab_id, n);
        }
    }
}

/// A state whose width indexes count the rows it has.
pub open spec fn reindexed(s: StateView) -> StateView {
    match s.columns {
        Some(columns) => StateView { widths: row_widths(s.rows, columns.len()), ..s },
        None => s,
    }
}

// ---------------------------------------------------------------------------------------
// Updates that wait
// ---------------------------------------------------------------------------------------

/// The greatest number of updates that wait.
pub const MAX_DEFERRED: usize = 64;

/// The updates that wait after one more: an update that waits already does not wait twice, and
/// where too many wait, the first one is given up.
pub open spec fn queue_with(queue: Seq<PayloadView>, payload: PayloadView) -> Seq<PayloadView> {
    if queue.contains(payload) {
        queue
    } else if queue.len() >= MAX_DEFERRED {
        queue.push(payload).skip(1)
    } else {
        queue.push(payload)
    }
}

/// A state in which an update waits.
pub open spec fn deferring(s: StateView, payload: PayloadView) -> StateView {
    StateView { deferred: queue_with(s.deferred, payload), ..s }
}

impl State {
    /// Lets an update wait.
    pub fn defer_pipe_update(&mut self, payload: UpdatePayload)
        ensures
            final(self)@ == deferring(old(self)@, payload@),
    {
        let ghost before = self@.deferred;
        let mut i: usize = 0;
        while i < self.pending_pipe_updates.len()
            invariant
                i <= self.pending_pipe_updates.len(),
                self@ == old(self)@,
                before == self@.deferred,
                forall|j: int| 0 <= j < i ==> #[trigger] before[j] != payload@,
            decreases self.pending_pipe_updates.len() - i,
        {
            assert(before[i as int] == self.pending_pipe_updates@[i as int]@);
            if self.pending_pipe_updates[i] == payload {
                return;
            }
            i = i + 1;
        }
        self.pending_pipe_updates.push(payload);
        assert(self@.deferred =~= before.push(payload@));
        if self.pending_pipe_updates.len() > MAX_DEFERRED {
            self.pending_pipe_updates.remove(0);
            assert(self@.deferred =~= before.push(payload@).skip(1));
        }
    }
}

// ---------------------------------------------------------------------------------------
// Handling
// ---------------------------------------------------------------------------------------

/// A state and a desk in which the claim for a tab agrees with how it was found: for the leader
/// it stands while the tab is to be renamed, and is dropped otherwise.
pub open spec fn claim_settled(
    s: StateView,
    d: DeskView,
    position: usize,
    target: TargetView,
    role: WriteRole,
) -> (StateView, DeskView) {
    if role != WriteRole::Leader {
        (s, d)
    } else if target.policy is PendingRename {
        (claimed(s, position, target.tab_id), d)
    } else {
        (unclaimed(s, position), desk_cleared(s, d, position))
    }
}

/// Writes an update into the row of a tab. Where nothing changes and the name of the tab is in
/// order, nothing more is done. Otherwise the leader keeps the row and has the tab renamed. Says
/// whether the list is to be shown anew.
pub open spec fn updated_target(
    s: StateView,
    d: DeskView,
    tab: TabView,
    columns: Seq<ColumnView>,
    target: TargetView,
    updates: Map<Seq<char>, Seq<char>>,
    role: WriteRole,
) -> (StateView, DeskView, bool) {
    let id = target.tab_id;
    let position = tab.position;
    let (s1, (old_row, _)) = row_for_update(s, d, tab, id, columns, target.policy);
    let row = updated_row(updates, columns, old_row);
    let name = mirrored_name(columns, row.cells, id);
    let (s2, d2) = claim_settled(with_row(s1, id, row), d, position, target, role);
    if row == old_row && row.mirrored == Some(name) {
        (s2, d2, false)
    } else if role != WriteRole::Leader {
        (reindexed(s2), d2, row != old_row)
    } else {
        let shown = mirrored_row(columns, id, row);
        (
            reindexed(with_row(s2, id, shown)),
            desk_renaming(
                desk_keeping(s2, d2, columns, position, id, name, shown),
                position,
                name,
            ),
            true,
        )
    }
}

/// Handles an update: it waits while its pane or its tab is not known, or while the shared state
/// cannot be used. It is dropped where the tab has no id and others may give it one.
pub open spec fn handled(s: StateView, d: DeskView, payload: PayloadView, role: WriteRole) -> (
    StateView,
    DeskView,
    bool,
) {
    let pane = payload.pane_id as usize;
    match s.columns {
        None => (s, d, false),
        Some(columns) => if !s.pane_tabs.contains_key(pane) {
            (deferring(s, payload), d, false)
        } else {
            match tab_at(s.tabs, s.pane_tabs[pane]) {
                None => (deferring(s, payload), d, false),
                Some(tab) => {
                    let (s1, d1, resolution) = resolved(s, d, tab, role);
                    match resolution {
                        ResolutionView::Ready(target) => updated_target(
                            s1,
                            d1,
                            tab,
                            columns,
                            target,
                            payload.updates,
                            role,
                        ),
                        ResolutionView::Unmanaged(_) => {
                            let (s2, d2, target) = ensured_target(s1, d1, tab, true);
                            match target {
                                Some(target) => updated_target(
                                    s2,
                                    d2,
                                    tab,
                                    columns,
                                    target,
                                    payload.updates,
                                    role,
                                ),
                                None => (s2, d2, false),
                            }
                        },
                        ResolutionView::Defer(_) => (deferring(s1, payload), d1, false),
                        ResolutionView::Drop(_) => (s1, d1, false),
                    }
                },
            }
        },
    }
}

proof fn lemma_row_for_update_fits(
    s: StateView,
    d: DeskView,
    tab: TabView,
    id: Seq<char>,
    columns: Seq<ColumnView>,
    policy: RowLoadPolicy,
)
    requires
        fits_columns(s),
        s.columns == Some(columns),
    ensures
        row_for_update(s, d, tab, id, columns, policy).1.0.cells.len() == columns.len(),
        fits_columns(row_for_update(s, d, tab, id, columns, policy).0),
{
    lemma_read_rows_fit(without_row(s, id), d, tab, id, columns);
}

impl State {
    fn settle_claim(
        &mut self,
        desk: &mut Desk,
        tab: &TabInfo,
        target: &ResolvedTabTarget,
        write_role: WriteRole,
    )
        ensures
            (final(self)@, final(desk)@) == claim_settled(
                old(self)@,
                old(desk)@,
                tab.position,
                target@,
                write_role,
            ),
    {
        if write_role.can_write() {
            if target.rename_pending() {
                self.pending_tab_id_by_position.insert(tab.position, target.tab_id.clone());
            } else {
                self.clear_pending_tab_claim_for_tab(desk, tab);
            }
        }
    }

    fn update_target(
        &mut self,
        desk: &mut Desk,
        tab: &TabInfo,
        schema: &Schema,
        target: ResolvedTabTarget,
        updates: &TextMap<String>,
        write_role: WriteRole,
    ) -> (r: bool)
        requires
            fits_columns(old(self)@),
            old(self)@.columns == Some(schema@),
        ensures
            (final(self)@, final(desk)@, r) == updated_target(
                old(self)@,
                old(desk)@,
                tab@,
                schema@,
                target@,
                updates@,
                write_role,
            ),
            fits_columns(final(self)@),
    {
        proof {
            lemma_row_for_update_fits(
                self@,
                desk@,
                tab@,
                target@.tab_id,
                schema@,
                target@.policy,
            );
        }
        let loaded = self.row_state_for_update(
            &*desk,
            tab,
            target.tab_id.as_str(),
            schema,
            target.row_load_policy,
        );
        let mut row = loaded.row;
        assert(row@.cells.len() == row.cells@.len());
        let changed = apply_updates_to_row(&mut row, schema, updates);
        assert(row@.cells.len() == row.cells@.len());
        let name = name_for_row(&row, target.tab_id.as_str(), schema);
        let in_order = same_option(&row.last_mirrored_tab_name, &Some(name.clone()));
        self.rows_by_tab_id.insert(target.tab_id.clone(), row.duplicate());
        self.settle_claim(desk, tab, &target, write_role);
        if !changed && in_order {
            return false;
        }
        if !write_role.can_write() {
            self.recompute_width_indexes();
            return changed;
        }
        row.last_mirrored_tab_name = Some(name.clone());
        assert(row@.cells.len() == row.cells@.len());
        self.write_persisted_row(
            desk,
            target.tab_id.as_str(),
            tab.position,
            name.as_str(),
            &row,
            schema,
        );
        self.rename_live_tab(desk, tab.position, name.as_str());
        let ghost before = self@.rows;
        self.rows_by_tab_id.insert(target.tab_id, row);
        assert(self@.rows =~= before.insert(target@.tab_id, row@));
        self.recompute_width_indexes();
        true
    }

    /// Handles an update. Says whether the list is to be shown anew.
    #[verifier::spinoff_prover]
    #[verifier::rlimit(40)]
    pub fn handle_update_payload(
        &mut self,
        desk: &mut Desk,
        payload: UpdatePayload,
        write_role: WriteRole,
    ) -> (r: bool)
        requires
            fits_columns(old(self)@),
        ensures
            (final(self)@, final(desk)@, r) == handled(
                old(self)@,
                old(desk)@,
                payload@,
                write_role,
            ),
            fits_columns(final(self)@),
    {
        let schema = match &self.schema {
            Some(schema) => schema.clone(),
            None => {
                return false;
            },
        };
        let position: usize = match self.pane_to_tab_position.get(payload.pane_id as usize) {
            Some(position) => *position,
            None => {
                self.defer_pipe_update(payload);
                return false;
            },
        };
        let tab = match find_tab(&self.tabs, position) {
            Some(tab) => tab.duplicate(),
            None => {
                self.defer_pipe_update(payload);
                return false;
            },
        };
        proof {
            lemma_ids_change_little(self@, desk@, tab@, write_role, true);
        }
        let target = match self.resolve_tab_target(desk, &tab, write_role) {
            TabTargetResolution::Ready(target) => target,
            TabTargetResolution::Unmanaged(_) => {
                proof {
                    lemma_ids_change_little(self@, desk@, tab@, write_role, true);
                }
                match self.ensure_pending_target_for_tab(desk, &tab, true) {
                    Some(target) => target,
                    None => {
                        return false;
                    },
                }
            },
            TabTargetResolution::Defer(_) => {
                self.defer_pipe_update(payload);
                return false;
            },
            TabTargetResolution::Drop(_) => {
                return false;
            },
        };
        self.update_target(desk, &tab, &schema, target, &payload.updates, write_role)
    }
}

/// Updates that waited and are handled one after the other, the first one first.
#[derive(Debug)]
pub struct Replay {
    pub waiting: Vec<UpdatePayload>,
    pub changed: bool,
}

/// What a [`Replay`] stands for.
#[verifier::ext_equal]
pub struct ReplayView {
    pub waiting: Seq<PayloadView>,
    pub changed: bool,
}

impl View for Replay {
    type V = ReplayView;

    open spec fn view(&self) -> ReplayView {
        ReplayView { waiting: payload_views(self.waiting@), changed: self.changed }
    }
}

/// Handles the first of the updates that waited, with the files as they are then. Where it has to
/// wait still, it waits on.
pub open spec fn replayed(s: StateView, d: DeskView, replay: ReplayView, role: WriteRole) -> (
    StateView,
    DeskView,
    ReplayView,
) {
    if replay.waiting.len() == 0 {
        (s, d, replay)
    } else {
        let (s1, d1, shown) = handled(s, d, replay.waiting[0], role);
        (
            s1,
            d1,
            ReplayView {
                waiting: replay.waiting.drop_first(),
                changed: replay.changed || shown,
            },
        )
    }
}

impl State {
    /// Takes the updates that wait, to have them handled anew.
    pub fn begin_replay(&mut self) -> (r: Replay)
        ensures
            r@ == (ReplayView { waiting: old(self)@.deferred, changed: false }),
            final(self)@ == (StateView { deferred: Seq::empty(), ..old(self)@ }),
            fits_columns(old(self)@) ==> fits_columns(final(self)@),
    {
        let mut waiting: Vec<UpdatePayload> = Vec::new();
        std::mem::swap(&mut self.pending_pipe_updates, &mut waiting);
        assert(self@.deferred =~= Seq::<PayloadView>::empty());
        Replay { waiting, changed: false }
    }

    /// Handles the next of the updates that waited, with the files as they are now. Says in the
    /// replay whether the list is to be shown anew.
    pub fn replay_pending_pipe_update(
        &mut self,
        replay: &mut Replay,
        desk: &mut Desk,
        write_role: WriteRole,
    )
        requires
            fits_columns(old(self)@),
        ensures
            (final(self)@, final(desk)@, final(replay)@) == replayed(
                old(self)@,
                old(desk)@,
                old(replay)@,
                write_role,
            ),
            fits_columns(final(self)@),
    {
        if replay.waiting.len() == 0 {
            return;
        }
        let payload = replay.waiting.remove(0);
        assert(payload@ == old(replay)@.waiting[0]);
        assert(payload_views(replay.waiting@) =~= old(replay)@.waiting.drop_first());
        if self.handle_update_payload(desk, payload, write_role) {
            replay.changed = true;
        }
    }
}

// ---------------------------------------------------------------------------------------
// Laws
// ---------------------------------------------------------------------------------------

/// Updates that wait are all different, and not too many.
pub open spec fn queue_in_order(queue: Seq<PayloadView>) -> bool {
    queue.len() <= MAX_DEFERRED && queue.no_duplicates()
}

proof fn lemma_queue_with(queue: Seq<PayloadView>, payload: PayloadView)
    requires
        queue_in_order(queue),
    ensures
        queue_in_order(queue_with(queue, payload)),
{
    if !queue.contains(payload) {
        let longer = queue.push(payload);
        assert forall|i: int, j: int|
            0 <= i < longer.len() && 0 <= j < longer.len() && i != j implies longer[i]
            != longer[j] by {
            if i < queue.len() && j < queue.len() {
                assert(queue[i] != queue[j]);
            } else if i < queue.len() {
                assert(queue.contains(queue[i]));
            } else {
                assert(queue.contains(queue[j]));
            }
        }
        assert(longer.skip(1).no_duplicates());
    }
}

proof fn lemma_deferred_only(s: StateView, d: DeskView, payload: PayloadView, role: WriteRole)
    ensures
        handled(s, d, payload, role).0.deferred == s.deferred || handled(
            s,
            d,
            payload,
            role,
        ).0.deferred == queue_with(s.deferred, payload),
{
}

/// Whatever update is handled, those that wait stay different from each other and not too many.
pub proof fn waiting_updates_stay_few_and_different(
    s: StateView,
    d: DeskView,
    payload: PayloadView,
    role: WriteRole,
)
    requires
        queue_in_order(s.deferred),
    ensures
        queue_in_order(handled(s, d, payload, role).0.deferred),
{
    lemma_deferred_only(s, d, payload, role);
    lemma_queue_with(s.deferred, payload);
}

/// Only the leader writes: for any other role, an update leaves the files of the session as they
/// are and has nothing done to the tabs.
pub proof fn only_the_leader_writes_updates(
    s: StateView,
    d: DeskView,
    payload: PayloadView,
    role: WriteRole,
)
    requires
        role != WriteRole::Leader,
    ensures
        handled(s, d, payload, role).1 == d,
{
}

/// An update reaches the row of its tab: every column that it names holds the text that it
/// gives, and every other column holds what it held.
pub proof fn updates_reach_their_row(
    s: StateView,
    d: DeskView,
    tab: TabView,
    columns: Seq<ColumnView>,
    target: TargetView,
    updates: Map<Seq<char>, Seq<char>>,
    role: WriteRole,
)
    ensures
        ({
            let before = row_for_update(s, d, tab, target.tab_id, columns, target.policy).1.0;
            let after = updated_target(s, d, tab, columns, target, updates, role).0;
            let row = after.rows[target.tab_id];
            &&& after.rows.contains_key(target.tab_id)
            &&& row.cells.len() == columns.len()
            &&& forall|i: int| #![trigger row.cells[i]]
                0 <= i < columns.len() ==> if updates.contains_key(columns[i].name) {
                    raw_text(row.cells[i]) == updates[columns[i].name]
                } else {
                    row.cells[i] == before.cells[i]
                }
        }),
{
    let before = row_for_update(s, d, tab, target.tab_id, columns, target.policy).1.0;
    let row = updated_row(updates, columns, before);
    assert forall|i: int| #![trigger row.cells[i]] 0 <= i < columns.len() implies if updates.contains_key(
        columns[i].name,
    ) {
        raw_text(row.cells[i]) == updates[columns[i].name]
    } else {
        row.cells[i] == before.cells[i]
    } by {
        assert(row.cells[i] == updated_cell(updates, columns[i], before.cells[i]));
    }
}

/// What the leader shows of an update, it also keeps: the row under the id of its tab, with the
/// name that the tab is given for it.
pub proof fn shown_updates_are_kept(
    s: StateView,
    d: DeskView,
    tab: TabView,
    columns: Seq<ColumnView>,
    target: TargetView,
    updates: Map<Seq<char>, Seq<char>>,
)
    requires
        has_store(s),
        updated_target(s, d, tab, columns, target, updates, WriteRole::Leader).2,
    ensures
        ({
            let (after, desk, _) = updated_target(
                s,
                d,
                tab,
                columns,
                target,
                updates,
                WriteRole::Leader,
            );
            let id = target.tab_id;
            let row = after.rows[id];
            let name = mirrored_name(columns, row.cells, id);
            &&& row.mirrored == Some(name)
            &&& desk.rows.contains_key(id)
            &&& desk.rows[id] == persisted_of(columns, row, name)
            &&& desk.effects.last() == (EffectView::RenameTab { position: tab.position, name })
        }),
{
}

/// Counting anew counts just the rows there are.
proof fn lemma_reindexed(s: StateView, columns: Seq<ColumnView>)
    requires
        s.columns == Some(columns),
        s.rows.dom().finite(),
        forall|id: Seq<char>| #[trigger]
            s.rows.contains_key(id) ==> s.rows[id].cells.len() == columns.len(),
    ensures
        indexed(reindexed(s).widths, reindexed(s).rows, columns.len()),
{
    rows_can_be_counted(s.rows, columns.len());
}

/// After an update that is shown the width indexes count just the cells of the rows there are
/// then, for every role, whatever they counted before. They also do where the name of the tab is
/// not in order for its row. Where they counted just the rows there were, they still do so if
/// the rows did not change, or if the row was one of them and could be used.
pub proof fn updates_count_the_rows_there_are(
    s: StateView,
    d: DeskView,
    tab: TabView,
    columns: Seq<ColumnView>,
    target: TargetView,
    updates: Map<Seq<char>, Seq<char>>,
    role: WriteRole,
)
    requires
        s.columns == Some(columns),
        s.rows.dom().finite(),
        fits_columns(s),
    ensures
        ({
            let (after, _, shown) = updated_target(s, d, tab, columns, target, updates, role);
            let id = target.tab_id;
            let row = after.rows[id];
            let known = s.rows.contains_key(id) && (s.rows[id].mirrored == Some(tab.name)
                || target.policy is PendingRename);
            let in_step = indexed(after.widths, after.rows, columns.len());
            &&& shown ==> in_step
            &&& row.mirrored != Some(mirrored_name(columns, row.cells, id)) ==> in_step
            &&& indexed(s.widths, s.rows, columns.len()) && (after.rows == s.rows || known)
                ==> in_step
        }),
{
    let id = target.tab_id;
    let position = tab.position;
    let (s1, (old_row, _)) = row_for_update(s, d, tab, id, columns, target.policy);
    let row = updated_row(updates, columns, old_row);
    let name = mirrored_name(columns, row.cells, id);
    let (s2, d2) = claim_settled(with_row(s1, id, row), d, position, target, role);
    lemma_row_for_update_fits(s, d, tab, id, columns, target.policy);
    assert forall|k: Seq<char>| #[trigger] s2.rows.contains_key(k) implies s2.rows[k].cells.len()
        == columns.len() by {
        if k != id {
            assert(s.rows.contains_key(k));
        }
    }
    if row == old_row && row.mirrored == Some(name) {
        if s.rows.contains_key(id) && usable(s.rows[id], tab, target.policy) {
            assert(s2.rows =~= s.rows);
        }
    } else if role != WriteRole::Leader {
        lemma_reindexed(s2, columns);
    } else {
        let shown = mirrored_row(columns, id, row);
        let s3 = with_row(s2, id, shown);
        assert forall|k: Seq<char>| #[trigger] s3.rows.contains_key(
            k,
        ) implies s3.rows[k].cells.len() == columns.len() by {
            if k != id {
                assert(s2.rows.contains_key(k));
            }
        }
        lemma_reindexed(s3, columns);
    }
}

/// An update changes no row but the one of its tab.
proof fn lemma_rows_differ_in_one(
    s: StateView,
    d: DeskView,
    tab: TabView,
    columns: Seq<ColumnView>,
    target: TargetView,
    updates: Map<Seq<char>, Seq<char>>,
    role: WriteRole,
)
    ensures
        ({
            let after = updated_target(s, d, tab, columns, target, updates, role).0;
            let id = target.tab_id;
            &&& after.rows.contains_key(id)
            &&& s.rows.contains_key(id) && s.rows[id] == after.rows[id] ==> after.rows == s.rows
        }),
{
    let after = updated_target(s, d, tab, columns, target, updates, role).0;
    let id = target.tab_id;
    if s.rows.contains_key(id) && s.rows[id] == after.rows[id] {
        assert(after.rows =~= s.rows);
    }
}

/// After an update was handled, for any role, the width indexes count just the cells of the rows
/// there are then: whatever they counted before if the list is to be shown anew, and else if
/// they did before, unless the update found a row that was not in the list, with nothing to
/// change in it and nothing in the name of its tab.
pub proof fn handled_updates_count_the_rows_there_are(
    s: StateView,
    d: DeskView,
    payload: PayloadView,
    role: WriteRole,
)
    requires
        s.columns is Some,
        s.rows.dom().finite(),
        fits_columns(s),
    ensures
        ({
            let (after, _, shown) = handled(s, d, payload, role);
            let n = s.columns->0.len();
            &&& after.columns == s.columns
            &&& shown ==> indexed(after.widths, after.rows, n)
            &&& indexed(s.widths, s.rows, n) ==> indexed(after.widths, after.rows, n) || (!shown
                && exists|id: Seq<char>| #[trigger]
                after.rows.contains_key(id) && !(s.rows.contains_key(id) && s.rows[id]
                    == after.rows[id]) && after.rows[id].mirrored == Some(
                    mirrored_name(s.columns->0, after.rows[id].cells, id),
                ))
        }),
{
    let pane = payload.pane_id as usize;
    let columns = s.columns->0;
    if s.pane_tabs.contains_key(pane) {
        if let Some(tab) = tab_at(s.tabs, s.pane_tabs[pane]) {
            lemma_ids_change_little(s, d, tab, role, true);
            let (s1, d1, resolution) = resolved(s, d, tab, role);
            match resolution {
                ResolutionView::Ready(target) => {
                    updates_count_the_rows_there_are(
                        s1,
                        d1,
                        tab,
                        columns,
                        target,
                        payload.updates,
                        role,
                    );
                    lemma_rows_differ_in_one(s1, d1, tab, columns, target, payload.updates, role);
                },
                ResolutionView::Unmanaged(_) => {
                    lemma_ids_change_little(s1, d1, tab, role, true);
                    let (s2, d2, target) = ensured_target(s1, d1, tab, true);
                    if let Some(target) = target {
                        updates_count_the_rows_there_are(
                            s2,
                            d2,
                            tab,
                            columns,
                            target,
                            payload.updates,
                            role,
                        );
                        lemma_rows_differ_in_one(
                            s2,
                            d2,
                            tab,
                            columns,
                            target,
                            payload.updates,
                            role,
                        );
                    }
                },
                _ => {},
            }
        }
    }
}

/// After an update that is shown, a column whose rule is `resize` is wide enough for what the
/// update wrote into it, in a list of any width, and a column with a hard limit is so up to its
/// limit.
pub proof fn updated_columns_are_wide_enough(
    s: StateView,
    d: DeskView,
    tab: TabView,
    columns: Seq<ColumnView>,
    target: TargetView,
    updates: Map<Seq<char>, Seq<char>>,
    role: WriteRole,
    cols: nat,
    i: int,
)
    requires
        s.columns == Some(columns),
        s.rows.dom().finite(),
        fits_columns(s),
        updated_target(s, d, tab, columns, target, updates, role).2,
        0 <= i < columns.len(),
    ensures
        ({
            let after = updated_target(s, d, tab, columns, target, updates, role).0;
            let width = shown_widths(after, columns, cols)[i];
            after.rows[target.tab_id].cells[i] matches Some(cell) ==> match columns[i].rule {
                ResizeSpec::Resize => width >= text_width(cell.plain_text),
                ResizeSpec::Truncate { mode: ResizeMode::Hard(limit), .. } => width >= text_width(
                    cell.plain_text,
                ) || width == limit,
                ResizeSpec::Truncate { mode: ResizeMode::Fixed(amount), .. } => width == amount,
                ResizeSpec::Truncate { mode: ResizeMode::Flow(_), .. } => true,
            }
        }),
{
    let after = updated_target(s, d, tab, columns, target, updates, role).0;
    let id = target.tab_id;
    updates_count_the_rows_there_are(s, d, tab, columns, target, updates, role);
    updates_reach_their_row(s, d, tab, columns, target, updates, role);
    assert(after.rows.contains_key(id));
    columns_are_as_wide_as_their_widest_cell(after.widths, after.rows, columns.len(), i);
    let naturals = natural_widths(after.widths);
    columns_are_as_wide_as_their_rules_say(
        rules(columns),
        naturals,
        cell_space(after.render, cols),
        1,
    );
    assert(rules(columns)[i] == columns[i].rule);
    assert(naturals[i] == greatest(after.widths[i]));
    assert(cell_width(after.rows[id], i) matches Some(w) ==> w <= naturals[i]);
}

/// A row that the leader showed an update in comes back when the rows are brought in step with
/// the tabs, for any role, once its tab was renamed for it: under the same id, with the same
/// text in each column as it was written, directives and all.
pub proof fn updated_rows_come_back(
    s: StateView,
    d: DeskView,
    tab: TabView,
    columns: Seq<ColumnView>,
    target: TargetView,
    updates: Map<Seq<char>, Seq<char>>,
    later: StateView,
    desk: DeskView,
    renamed: TabView,
    role: WriteRole,
)
    requires
        s.columns == Some(columns),
        fits_columns(s),
        has_store(s),
        names(columns).no_duplicates(),
        forall|i: int|
            0 <= i < columns.len() ==> plain_key((#[trigger] columns[i]).name) && columns[i].name
                != SUPER_TAB_ID_KEY@,
        target.tab_id.len() > 0,
        updated_target(s, d, tab, columns, target, updates, WriteRole::Leader).2,
        ({
            let (_, kept, _) = updated_target(
                s,
                d,
                tab,
                columns,
                target,
                updates,
                WriteRole::Leader,
            );
            &&& has_store(later)
            &&& kept.effects.last() == EffectView::RenameTab {
                position: tab.position,
                name: renamed.name,
            }
            &&& desk.rows.contains_key(target.tab_id)
            &&& desk.rows[target.tab_id] == kept.rows[target.tab_id]
            &&& valid_claim(desk, key_at(later, renamed.position), renamed.name) is None
        }),
    ensures
        row_for_tab(later, desk, renamed, columns, role).2 is Some,
        ({
            let (after, _, _) = updated_target(
                s,
                d,
                tab,
                columns,
                target,
                updates,
                WriteRole::Leader,
            );
            let written = after.rows[target.tab_id];
            let loaded = row_for_tab(later, desk, renamed, columns, role).2->0;
            &&& loaded.id == target.tab_id
            &&& loaded.row.mirrored == written.mirrored
            &&& loaded.row.cells.len() == columns.len()
            &&& forall|i: int| #![trigger loaded.row.cells[i]]
                0 <= i < columns.len() ==> raw_text(loaded.row.cells[i]) == raw_text(
                    written.cells[i],
                )
            &&& forall|i: int| #![trigger loaded.row.cells[i]]
                0 <= i < columns.len() && updates.contains_key(columns[i].name) ==> raw_text(
                    loaded.row.cells[i],
                ) == updates[columns[i].name]
        }),
{
    let (after, kept, _) = updated_target(s, d, tab, columns, target, updates, WriteRole::Leader);
    let id = target.tab_id;
    let written = after.rows[id];
    lemma_row_for_update_fits(s, d, tab, id, columns, target.policy);
    shown_updates_are_kept(s, d, tab, columns, target, updates);
    updates_reach_their_row(s, d, tab, columns, target, updates, WriteRole::Leader);
    kept_texts_are_read_back(columns, written, renamed.name);
    assert forall|i: int| 0 <= i < names(columns).len() implies plain_key(
        #[trigger] names(columns)[i],
    ) && names(columns)[i] != SUPER_TAB_ID_KEY@ by {
        assert(names(columns)[i] == columns[i].name);
    }
    tab_names_carry_id_and_texts(names(columns), written.cells, Some(id));
    kept_rows_are_taken_up(later, desk, renamed, columns, id, role);
}

/// An update starts from the row that is known for the id of its tab, if it agrees with the name
/// of the tab or the tab is still to be renamed. Otherwise it starts from the row that was kept
/// under that id, for the name of the tab or, if it is still to be renamed, for any name; else
/// from what was kept under the position of a tab that had no id, where that is asked for; else
/// from what the name carries; and else from a row without texts.
pub proof fn updates_start_from_the_row_there_is(
    s: StateView,
    d: DeskView,
    tab: TabView,
    id: Seq<char>,
    columns: Seq<ColumnView>,
    policy: RowLoadPolicy,
)
    ensures
        ({
            let (after, (row, source)) = row_for_update(s, d, tab, id, columns, policy);
            let renaming = policy is PendingRename;
            let legacy = policy == (RowLoadPolicy::PendingRename {
                legacy_position_fallback: true,
            });
            let position = decimal(tab.position as nat);
            let known = s.rows.contains_key(id) && (renaming || s.rows[id].mirrored == Some(
                tab.name,
            ));
            let kept = has_store(s) && d.rows.contains_key(id) && d.rows[id].version == 1 && (
            renaming || d.rows[id].mirrored_name == tab.name);
            let placed = legacy && has_store(s) && d.rows.contains_key(position)
                && d.rows[position].version == 1 && d.rows[position].mirrored_name == tab.name;
            let named = row_of_name(tab.name, columns);
            &&& known ==> row == s.rows[id]
            &&& !known && kept ==> Some(row) == row_of_persisted(d.rows[id], columns)
            &&& !known && !kept && placed ==> Some(row) == row_of_persisted(
                d.rows[position],
                columns,
            )
            &&& !known && !kept && !placed && named is Some ==> row == named->0
            &&& !known && !kept && !placed && named is None ==> row.cells.len() == columns.len()
                && row.mirrored is None && forall|i: int|
                0 <= i < columns.len() ==> #[trigger] row.cells[i] is None
            &&& !after.rows.contains_key(id)
            &&& forall|k: Seq<char>|
                k != id ==> (#[trigger] after.rows.contains_key(k) <==> s.rows.contains_key(k))
                    && after.rows[k] == s.rows[k]
        }),
{
}

/// The list is shown anew after an update just if a text changed or, for the leader, if the tab
/// is to be renamed: its name does not carry what the row holds. Other rows stay what they were.
/// An update without news writes nothing but that a claim was dropped.
pub proof fn updates_are_shown_if_they_are_news(
    s: StateView,
    d: DeskView,
    tab: TabView,
    columns: Seq<ColumnView>,
    target: TargetView,
    updates: Map<Seq<char>, Seq<char>>,
    role: WriteRole,
)
    requires
        s.columns == Some(columns),
        fits_columns(s),
    ensures
        ({
            let id = target.tab_id;
            let before = row_for_update(s, d, tab, id, columns, target.policy).1.0;
            let (after, desk, shown) = updated_target(s, d, tab, columns, target, updates, role);
            let row = after.rows[id];
            let news = exists|i: int|
                0 <= i < columns.len() && updates.contains_key((#[trigger] columns[i]).name)
                    && updates[columns[i].name] != raw_text(before.cells[i]);
            let in_order = before.mirrored == Some(mirrored_name(columns, before.cells, id));
            &&& role != WriteRole::Leader ==> (shown <==> news)
            &&& role == WriteRole::Leader ==> (shown <==> news || !in_order)
            &&& !news ==> row.cells == before.cells
            &&& !shown ==> desk.rows == d.rows && row == before
            &&& role != WriteRole::Leader ==> desk == d
            &&& forall|k: Seq<char>|
                k != id ==> (#[trigger] after.rows.contains_key(k) <==> s.rows.contains_key(k))
                    && after.rows[k] == s.rows[k]
            &&& forall|k: Seq<char>|
                k != id ==> (#[trigger] desk.rows.contains_key(k) <==> d.rows.contains_key(k))
                    && desk.rows[k] == d.rows[k]
        }),
{
    let id = target.tab_id;
    let before = row_for_update(s, d, tab, id, columns, target.policy).1.0;
    let row = updated_row(updates, columns, before);
    lemma_row_for_update_fits(s, d, tab, id, columns, target.policy);
    if exists|i: int|
        0 <= i < columns.len() && updates.contains_key((#[trigger] columns[i]).name)
            && updates[columns[i].name] != raw_text(before.cells[i]) {
        let i = choose|i: int|
            0 <= i < columns.len() && updates.contains_key((#[trigger] columns[i]).name)
                && updates[columns[i].name] != raw_text(before.cells[i]);
        assert(raw_text(row.cells[i]) == updates[columns[i].name]);
        assert(row.cells != before.cells);
    } else {
        assert forall|i: int| 0 <= i < columns.len() implies row.cells[i] == before.cells[i] by {
            assert(row.cells[i] == updated_cell(updates, columns[i], before.cells[i]));
        }
        assert(row.cells =~= before.cells);
    }
}

/// For the leader a claim stands with its tab as long as the tab is to be renamed, and is dropped
/// once its name carries the id. No other role touches it, nor the claim of another tab.
pub proof fn updates_settle_the_claim(
    s: StateView,
    d: DeskView,
    tab: TabView,
    columns: Seq<ColumnView>,
    target: TargetView,
    updates: Map<Seq<char>, Seq<char>>,
    role: WriteRole,
)
    requires
        has_store(s),
    ensures
        ({
            let (after, desk, _) = updated_target(s, d, tab, columns, target, updates, role);
            let renaming = target.policy is PendingRename;
            &&& role == WriteRole::Leader && renaming ==> {
                &&& after.pending.contains_key(tab.position)
                &&& after.pending[tab.position] == target.tab_id
                &&& desk.claims == d.claims
            }
            &&& role == WriteRole::Leader && !renaming ==> {
                &&& !after.pending.contains_key(tab.position)
                &&& !desk.claims.contains_key(key_at(s, tab.position))
            }
            &&& role != WriteRole::Leader ==> after.pending == s.pending && desk.claims == d.claims
            &&& forall|p: usize|
                p != tab.position ==> (#[trigger] after.pending.contains_key(p)
                    <==> s.pending.contains_key(p)) && after.pending[p] == s.pending[p]
            &&& forall|k: Seq<char>|
                k != key_at(s, tab.position) ==> (#[trigger] desk.claims.contains_key(k)
                    <==> d.claims.contains_key(k)) && desk.claims[k] == d.claims[k]
        }),
{
}

/// An update goes to the tab of its pane, under the id that this tab is known by or that the
/// leader claims for it: the row of that id then holds the texts that the update gives. While the
/// pane or its tab is not known, or nobody is known to lead and the tab has no id, the update
/// waits. Where a plugin follows and the tab has no id, nothing comes of it. In neither case does
/// anything else change.
pub proof fn updates_go_to_the_tab_of_their_pane(
    s: StateView,
    d: DeskView,
    payload: PayloadView,
    role: WriteRole,
)
    requires
        s.columns is Some,
    ensures
        ({
            let columns = s.columns->0;
            let pane = payload.pane_id as usize;
            let (after, desk, shown) = handled(s, d, payload, role);
            let tab = tab_at(s.tabs, s.pane_tabs[pane]);
            let waits = after == (StateView { deferred: queue_with(s.deferred, payload), ..s })
                && desk == d && !shown;
            &&& !s.pane_tabs.contains_key(pane) || tab is None ==> waits
            &&& s.pane_tabs.contains_key(pane) && tab is Some ==> {
                let name = tab->0.name;
                let claim = if role == WriteRole::Leader && has_store(s) {
                    valid_claim(d, key_at(s, tab->0.position), name)
                } else {
                    None
                };
                &&& claim matches Some(id) ==> holds_texts(after, columns, id, payload.updates)
                &&& claim is None ==> (id_in(name) matches Some(id) ==> holds_texts(
                    after,
                    columns,
                    id,
                    payload.updates,
                ))
                &&& role == WriteRole::Unavailable && id_in(name) is None ==> waits
                &&& role == WriteRole::Follower && id_in(name) is None ==> after == s && desk == d
                    && !shown
                &&& role == WriteRole::Leader && claim is None && id_in(name) is None ==> (
                after.pending.contains_key(tab->0.position) ==> holds_texts(
                    after,
                    columns,
                    after.pending[tab->0.position],
                    payload.updates,
                ))
            }
        }),
{
    let columns = s.columns->0;
    let pane = payload.pane_id as usize;
    if s.pane_tabs.contains_key(pane) {
        if let Some(tab) = tab_at(s.tabs, s.pane_tabs[pane]) {
            let (s1, d1, resolution) = resolved(s, d, tab, role);
            match resolution {
                ResolutionView::Ready(target) => {
                    updates_reach_their_row(s1, d1, tab, columns, target, payload.updates, role);
                },
                ResolutionView::Unmanaged(_) => {
                    let (s2, d2, target) = ensured_target(s1, d1, tab, true);
                    if let Some(target) = target {
                        updates_reach_their_row(
                            s2,
                            d2,
                            tab,
                            columns,
                            target,
                            payload.updates,
                            role,
                        );
                    }
                },
                _ => {},
            }
        }
    }
}

/// A state has a row for an id that holds the text that updates give to each column they name.
pub open spec fn holds_texts(
    s: StateView,
    columns: Seq<ColumnView>,
    id: Seq<char>,
    updates: Map<Seq<char>, Seq<char>>,
) -> bool {
    &&& s.rows.contains_key(id)
    &&& s.rows[id].cells.len() == columns.len()
    &&& forall|i: int|
        0 <= i < columns.len() && updates.contains_key((#[trigger] columns[i]).name) ==> raw_text(
            s.rows[id].cells[i],
        ) == updates[columns[i].name]
}

/// An update that waits is in the queue, once, and the others wait on in their order. Only the
/// one that has waited longest is given up, and only where the queue is full.
pub proof fn waiting_updates_keep_their_order(queue: Seq<PayloadView>, payload: PayloadView)
    requires
        queue_in_order(queue),
    ensures
        ({
            let after = queue_with(queue, payload);
            &&& after.contains(payload)
            &&& forall|p: PayloadView| #[trigger]
                after.contains(p) ==> p == payload || queue.contains(p)
            &&& queue.contains(payload) ==> after == queue
            &&& !queue.contains(payload) ==> after.last() == payload
            &&& !queue.contains(payload) && queue.len() < 64 ==> queue.is_prefix_of(after)
                && after.len() == queue.len() + 1
            &&& !queue.contains(payload) && queue.len() == 64 ==> after.len() == 64 && forall|i: int|
                0 <= i < 63 ==> #[trigger] after[i] == queue[i + 1]
        }),
{
    let after = queue_with(queue, payload);
    if !queue.contains(payload) {
        assert(after[after.len() - 1] == payload);
        assert forall|p: PayloadView| #[trigger] after.contains(p) implies p == payload
            || queue.contains(p) by {
            let i = choose|i: int| 0 <= i < after.len() && after[i] == p;
            if queue.len() >= MAX_DEFERRED {
                if i < after.len() - 1 {
                    assert(queue[i + 1] == p);
                }
            } else if i < queue.len() {
                assert(queue[i] == p);
            }
        }
    }
}

/// Updates that waited are handled one by one, in the order in which they came: each step takes
/// the first, handles it just as if it came then, and leaves the others. What is to be shown of
/// one is not forgotten over the next. There is nothing more to do once none is left.
pub proof fn waiting_updates_are_handled_in_turn(
    s: StateView,
    d: DeskView,
    replay: ReplayView,
    role: WriteRole,
)
    ensures
        ({
            let (after, desk, rest) = replayed(s, d, replay, role);
            &&& replay.waiting.len() > 0 ==> {
                let (s1, d1, shown) = handled(s, d, replay.waiting[0], role);
                &&& after == s1
                &&& desk == d1
                &&& rest.waiting.len() == replay.waiting.len() - 1
                &&& forall|i: int|
                    0 <= i < rest.waiting.len() ==> #[trigger] rest.waiting[i]
                        == replay.waiting[i + 1]
                &&& rest.changed <==> replay.changed || shown
            }
            &&& replay.waiting.len() == 0 ==> after == s && desk == d && rest == replay
        }),
{
}

/// Without a store nothing is kept and nothing is claimed in the files of a session: they are what
/// they were after any update, for any role.
pub proof fn updates_keep_nothing_without_a_store(
    s: StateView,
    d: DeskView,
    payload: PayloadView,
    role: WriteRole,
)
    requires
        !has_store(s),
    ensures
        handled(s, d, payload, role).1.rows == d.rows,
        handled(s, d, payload, role).1.claims == d.claims,
{
    let pane = payload.pane_id as usize;
    if s.columns is Some && s.pane_tabs.contains_key(pane) {
        if let Some(tab) = tab_at(s.tabs, s.pane_tabs[pane]) {
            lemma_ids_change_little(s, d, tab, role, true);
            let (s1, d1, resolution) = resolved(s, d, tab, role);
            lemma_ids_change_little(s1, d1, tab, role, true);
        }
    }
}

/// The first update of a tab without an id leaves what the tab had so far: a column that the
/// update does not name holds what was kept under the position of the tab for its name, or else
/// what its name carries.
pub proof fn first_updates_keep_what_a_tab_had(
    s: StateView,
    d: DeskView,
    payload: PayloadView,
    tab: TabView,
    id: Seq<char>,
)
    requires
        s.columns is Some,
        fits_columns(s),
        has_store(s),
        s.pane_tabs.contains_key(payload.pane_id as usize),
        tab_at(s.tabs, s.pane_tabs[payload.pane_id as usize]) == Some(tab),
        valid_claim(d, key_at(s, tab.position), tab.name) is None,
        id_in(tab.name) is None,
        ensured(refreshed(s, d, tab).0, refreshed(s, d, tab).1, tab).2 == Some(id),
        !d.rows.contains_key(id),
    ensures
        ({
            let columns = s.columns->0;
            let position = decimal(tab.position as nat);
            let placed = d.rows.contains_key(position) && d.rows[position].version == 1
                && d.rows[position].mirrored_name == tab.name;
            let had = if placed {
                row_of_persisted(d.rows[position], columns)
            } else {
                row_of_name(tab.name, columns)
            };
            let after = handled(s, d, payload, WriteRole::Leader).0;
            let row = after.rows[id];
            &&& after.rows.contains_key(id)
            &&& row.cells.len() == columns.len()
            &&& forall|i: int| #![trigger row.cells[i]]
                0 <= i < columns.len() && !payload.updates.contains_key(columns[i].name)
                    ==> row.cells[i] == (match had {
                    Some(had) => had.cells[i],
                    None => None,
                })
        }),
{
    let columns = s.columns->0;
    let (s1, d1, resolution) = resolved(s, d, tab, WriteRole::Leader);
    let (s2, d2, target) = ensured_target(s1, d1, tab, true);
    lemma_ids_change_little(s, d, tab, WriteRole::Leader, true);
    lemma_ids_change_little(s1, d1, tab, WriteRole::Leader, true);
    claims_are_made_for_new_ids(s1, d1, tab);
    assert(refreshed(s1, d1, tab).2 is None);
    assert(!s2.rows.contains_key(id));
    let policy = target->0.policy;
    updates_start_from_the_row_there_is(s2, d2, tab, id, columns, policy);
    updates_reach_their_row(
        s2,
        d2,
        tab,
        columns,
        target->0,
        payload.updates,
        WriteRole::Leader,
    );
}

/// Nothing comes of an update while there are no columns.
pub proof fn updates_need_columns(s: StateView, d: DeskView, payload: PayloadView, role: WriteRole)
    requires
        s.columns is None,
    ensures
        handled(s, d, payload, role) == (s, d, false),
{
}

} // verus!
