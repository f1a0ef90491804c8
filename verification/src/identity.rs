//! Ids of tabs: which a tab has, and how one without an id gets one.
use vstd::prelude::*;

use crate::ids::{
    claim_key, claim_key_for_panes, claim_keys_tell_tabs_apart, format_minted_id, minted_id,
    minted_ids_are_read_back, minted_parts, parse_minted_super_tab_id, sanitize_session_key,
    sanitized, unmanaged_identity, unmanaged_identity_for_name, IdentityState,
};
use crate::leader::WriteRole;
use crate::map::Record;
use crate::row::{ClaimView, PendingTabClaim};
use crate::state::{
    find_tab, pane_views, panes_at, tab_at, Desk, DeskView, Effect, EffectView, PaneInfo, PaneView,
    State, StateView, TabInfo, TabView,
};
use crate::tab_name::{decode_super_tab_id, id_in};
use crate::text::{same_text, string_view};

verus! {

// ---------------------------------------------------------------------------------------
// Session and panes
// ---------------------------------------------------------------------------------------

/// The key of the session, where its shared state can be used.
pub open spec fn session_key_of(s: StateView) -> Option<Seq<char>> {
    match s.mode.session_name {
        Some(name) => if s.ready && sanitized(name).len() > 0 {
            Some(sanitized(name))
        } else {
            None
        },
        None => None,
    }
}

/// The shared state of the session can be used.
pub open spec fn has_store(s: StateView) -> bool {
    session_key_of(s) is Some
}

/// The ids of the panes that are not plugins, in order.
pub open spec fn terminal_ids(panes: Seq<PaneView>) -> Seq<u32>
    decreases panes.len(),
{
    if panes.len() == 0 {
        Seq::empty()
    } else if panes.last().plugin {
        terminal_ids(panes.drop_last())
    } else {
        terminal_ids(panes.drop_last()).push(panes.last().id)
    }
}

/// A pane is among the terminal panes just if one of the panes that are not plugins has its
/// id.
pub proof fn terminal_ids_are_those_of_terminals(panes: Seq<PaneView>, id: u32)
    ensures
        terminal_ids(panes).contains(id) <==> exists|i: int|
            0 <= i < panes.len() && !(#[trigger] panes[i]).plugin && panes[i].id == id,
    decreases panes.len(),
{
    if panes.len() > 0 {
        let front = panes.drop_last();
        terminal_ids_are_those_of_terminals(front, id);
        let ids = terminal_ids(front);
        let last = panes.len() - 1;
        if terminal_ids(panes).contains(id) {
            let k = choose|k: int| 0 <= k < terminal_ids(panes).len() && terminal_ids(panes)[k] == id;
            if k < ids.len() {
                assert(ids[k] == id);
                let i = choose|i: int|
                    0 <= i < front.len() && !(#[trigger] front[i]).plugin && front[i].id == id;
                assert(!panes[i].plugin && panes[i].id == id);
            } else {
                assert(!panes[last].plugin && panes[last].id == id);
            }
        }
        if exists|i: int| 0 <= i < panes.len() && !(#[trigger] panes[i]).plugin && panes[i].id == id {
            let i = choose|i: int|
                0 <= i < panes.len() && !(#[trigger] panes[i]).plugin && panes[i].id == id;
            if i < last {
                assert(!front[i].plugin && front[i].id == id);
                let k = choose|k: int| 0 <= k < ids.len() && ids[k] == id;
                assert(terminal_ids(panes)[k] == id);
            } else {
                assert(terminal_ids(panes)[ids.len() as int] == id);
            }
        }
    }
}

fn terminal_ids_of(panes: &Vec<PaneInfo>) -> (r: Vec<u32>)
    ensures
        r@ == terminal_ids(pane_views(panes@)),
{
    let ghost all = pane_views(panes@);
    let mut r: Vec<u32> = Vec::new();
    let mut i: usize = 0;
    while i < panes.len()
        invariant
            i <= panes.len(),
            all == pane_views(panes@),
            r@ == terminal_ids(all.take(i as int)),
        decreases panes.len() - i,
    {
        proof {
            let t = all.take(i + 1);
            assert(t.drop_last() =~= all.take(i as int));
            assert(t.last() == panes@[i as int]@);
        }
        if !panes[i].is_plugin {
            r.push(panes[i].id);
        }
        i = i + 1;
    }
    assert(all.take(all.len() as int) =~= all);
    r
}

/// The key under which an id for the tab at a position is claimed.
pub open spec fn key_at(s: StateView, position: usize) -> Seq<char> {
    claim_key(terminal_ids(panes_at(s.panes, position)), position)
}

impl State {
    /// The key of the session, where its shared state can be used.
    pub fn session_key(&self) -> (r: Option<String>)
        ensures
            string_view(r) == session_key_of(self@),
    {
        if !self.shared_state_ready {
            return None;
        }
        match &self.mode_info.session_name {
            Some(name) => {
                let key = sanitize_session_key(name.as_str());
                if key.as_str().is_empty() {
                    None
                } else {
                    Some(key)
                }
            },
            None => None,
        }
    }

    fn terminal_ids_at(&self, position: usize) -> (r: Vec<u32>)
        ensures
            r@ == terminal_ids(panes_at(self@.panes, position)),
    {
        match self.pane_manifest.place(position) {
            Some(i) => terminal_ids_of(&self.pane_manifest.panes[i].1),
            None => {
                assert(panes_at(self@.panes, position) =~= Seq::<PaneView>::empty());
                Vec::new()
            },
        }
    }

    /// The key under which an id for a tab is claimed.
    pub fn pending_tab_claim_key_for_tab(&self, tab: &TabInfo) -> (r: String)
        ensures
            r@ == key_at(self@, tab.position),
    {
        claim_key_for_panes(&self.terminal_ids_at(tab.position), tab.position)
    }

    /// Whether a tab is known to have a terminal pane.
    pub fn has_terminal_panes_for_tab(&self, tab_position: usize) -> (r: bool)
        ensures
            r == (terminal_ids(panes_at(self@.panes, tab_position)).len() > 0),
    {
        self.terminal_ids_at(tab_position).len() > 0
    }
}

// ---------------------------------------------------------------------------------------
// Minting
// ---------------------------------------------------------------------------------------

/// An id is in use: the name of a tab carries it, or it is that of a row or of a claim.
pub open spec fn taken(s: StateView, id: Seq<char>) -> bool {
    ||| exists|i: int| 0 <= i < s.tabs.len() && id_in((#[trigger] s.tabs[i]).name) == Some(id)
    ||| s.rows.contains_key(id)
    ||| exists|p: usize| #[trigger] s.pending.contains_key(p) && s.pending[p] == id
}

/// The first number from `n` on whose id is not in use.
pub open spec fn first_free(s: StateView, plugin_id: u32, n: u64) -> Option<u64>
    decreases u64::MAX - n,
{
    if !taken(s, minted_id(plugin_id, n)) {
        Some(n)
    } else if n == u64::MAX {
        None
    } else {
        first_free(s, plugin_id, (n + 1) as u64)
    }
}

/// The number after another, up to the greatest.
pub open spec fn next_number(n: u64) -> u64 {
    if n == u64::MAX {
        n
    } else {
        (n + 1) as u64
    }
}

/// The plugin in whose name ids are minted.
pub open spec fn minting_plugin(s: StateView) -> u32 {
    match s.plugin_id {
        Some(id) => id,
        None => 0,
    }
}

/// The number from which on ids are tried.
pub open spec fn first_number(s: StateView) -> u64 {
    if s.next_tab_id == 0 {
        1
    } else {
        s.next_tab_id
    }
}

/// A new id: the first one of this plugin that is not in use. None where all are.
pub open spec fn minted(s: StateView) -> (StateView, Option<Seq<char>>) {
    match first_free(s, minting_plugin(s), first_number(s)) {
        Some(n) => (
            StateView { next_tab_id: next_number(n), ..s },
            Some(minted_id(minting_plugin(s), n)),
        ),
        None => (StateView { next_tab_id: u64::MAX, ..s }, None),
    }
}

/// A state after an id was seen: later ids of this plugin have greater numbers.
pub open spec fn after_seeing(s: StateView, id: Seq<char>) -> StateView {
    match (s.plugin_id, minted_parts(id)) {
        (Some(own), Some((plugin_id, n))) => if plugin_id == own && s.next_tab_id < next_number(n) {
            StateView { next_tab_id: next_number(n), ..s }
        } else {
            s
        },
        _ => s,
    }
}

impl State {
    fn id_taken(&self, id: &str) -> (r: bool)
        ensures
            r == taken(self@, id@),
    {
        let mut i: usize = 0;
        while i < self.tabs.len()
            invariant
                i <= self.tabs.len(),
                forall|j: int| 0 <= j < i ==> id_in((#[trigger] self@.tabs[j]).name) != Some(id@),
            decreases self.tabs.len() - i,
        {
            assert(self@.tabs[i as int].name == self.tabs@[i as int].name@);
            if let Some(live) = decode_super_tab_id(self.tabs[i].name.as_str()) {
                if same_text(live.as_str(), id) {
                    return true;
                }
            }
            i = i + 1;
        }
        if self.rows_by_tab_id.contains_key(id) {
            return true;
        }
        let own = id.to_owned();
        assert(own@ == id@);
        assert(self@.pending == self.pending_tab_id_by_position@);
        self.pending_tab_id_by_position.holds(&own)
    }

    /// Remembers an id that was seen.
    pub fn observe_tab_id(&mut self, tab_id: &str)
        ensures
            final(self)@ == after_seeing(old(self)@, tab_id@),
    {
        let own: u32 = match self.plugin_id {
            Some(own) => own,
            None => {
                return;
            },
        };
        if let Some((plugin_id, n)) = parse_minted_super_tab_id(tab_id) {
            let next: u64 = if n == u64::MAX {
                n
            } else {
                n + 1
            };
            if plugin_id == own && self.next_tab_id < next {
                self.next_tab_id = next;
            }
        }
    }

    /// Makes a new id.
    pub fn mint_super_tab_id(&mut self) -> (r: Option<String>)
        ensures
            (final(self)@, string_view(r)) == minted(old(self)@),
    {
        let plugin_id: u32 = match self.plugin_id {
            Some(id) => id,
            None => 0,
        };
        let start: u64 = if self.next_tab_id == 0 {
            1
        } else {
            self.next_tab_id
        };
        let mut n: u64 = start;
        loop
            invariant
                self@ == old(self)@,
                plugin_id == minting_plugin(self@),
                start == first_number(self@),
                first_free(self@, plugin_id, start) == first_free(self@, plugin_id, n),
            decreases u64::MAX - n,
        {
            let candidate = format_minted_id(plugin_id, n);
            if !self.id_taken(candidate.as_str()) {
                self.next_tab_id = if n == u64::MAX {
                    n
                } else {
                    n + 1
                };
                return Some(candidate);
            }
            if n == u64::MAX {
                self.next_tab_id = u64::MAX;
                return None;
            }
            n = n + 1;
        }
    }
}

// ---------------------------------------------------------------------------------------
// Claims
// ---------------------------------------------------------------------------------------

/// A state without a claim for the tab at a position.
pub open spec fn unclaimed(s: StateView, position: usize) -> StateView {
    StateView { pending: s.pending.remove(position), ..s }
}

/// A state with an id claimed for the tab at a position.
pub open spec fn claimed(s: StateView, position: usize, id: Seq<char>) -> StateView {
    StateView { pending: s.pending.insert(position, id), ..s }
}

/// A desk without the claim for the tab at a position.
pub open spec fn desk_cleared(s: StateView, d: DeskView, position: usize) -> DeskView {
    if has_store(s) {
        DeskView {
            claims: d.claims.remove(key_at(s, position)),
            effects: d.effects.push(
                EffectView::ClearClaim { key: key_at(s, position), position },
            ),
            ..d
        }
    } else {
        d
    }
}

/// The id that the claim for a tab holds, where it was made for the name that the tab has.
pub open spec fn valid_claim(d: DeskView, key: Seq<char>, name: Seq<char>) -> Option<Seq<char>> {
    if d.claims.contains_key(key) && d.claims[key].version == 1 && d.claims[key].observed_name
        == name && d.claims[key].tab_id.len() > 0 {
        Some(d.claims[key].tab_id)
    } else {
        None
    }
}

/// Looks up the claim for a tab: a valid one gives the id, any other is dropped.
pub open spec fn refreshed(s: StateView, d: DeskView, tab: TabView) -> (
    StateView,
    DeskView,
    Option<Seq<char>>,
) {
    let key = key_at(s, tab.position);
    if !has_store(s) || !d.claims.contains_key(key) {
        (unclaimed(s, tab.position), d, None)
    } else {
        match valid_claim(d, key, tab.name) {
            Some(id) => (claimed(s, tab.position, id), d, Some(id)),
            None => (unclaimed(s, tab.position), desk_cleared(s, d, tab.position), None),
        }
    }
}

/// A desk with an id claimed for a tab.
pub open spec fn desk_claimed(s: StateView, d: DeskView, tab: TabView, id: Seq<char>) -> DeskView {
    if has_store(s) {
        let key = key_at(s, tab.position);
        let claim = ClaimView { version: 1, observed_name: tab.name, tab_id: id };
        DeskView {
            claims: d.claims.insert(key, claim),
            effects: d.effects.push(
                EffectView::WriteClaim { key, position: tab.position, claim },
            ),
            ..d
        }
    } else {
        d
    }
}

/// Claims an id for a tab: the one that is claimed already, or a new one.
pub open spec fn ensured(s: StateView, d: DeskView, tab: TabView) -> (
    StateView,
    DeskView,
    Option<Seq<char>>,
) {
    let (s1, d1, found) = refreshed(s, d, tab);
    match found {
        Some(id) => (s1, d1, Some(id)),
        None => {
            let (s2, made) = minted(s1);
            match made {
                Some(id) => (
                    claimed(s2, tab.position, id),
                    desk_claimed(s2, d1, tab, id),
                    Some(id),
                ),
                None => (s2, d1, None),
            }
        },
    }
}

impl State {
    /// Drops the claim for a tab.
    pub fn clear_pending_tab_claim_for_tab(&mut self, desk: &mut Desk, tab: &TabInfo)
        ensures
            final(self)@ == unclaimed(old(self)@, tab.position),
            final(desk)@ == desk_cleared(old(self)@, old(desk)@, tab.position),
    {
        self.pending_tab_id_by_position.remove(tab.position);
        if self.session_key().is_some() {
            let key = self.pending_tab_claim_key_for_tab(tab);
            desk.claims.remove(key.as_str());
            desk.push(Effect::ClearClaim { key, position: tab.position });
        }
    }

    /// Looks up the claim for a tab.
    pub fn refresh_pending_tab_id_for_tab(&mut self, desk: &mut Desk, tab: &TabInfo) -> (r: Option<
        String,
    >)
        ensures
            (final(self)@, final(desk)@, string_view(r)) == refreshed(
                old(self)@,
                old(desk)@,
                tab@,
            ),
    {
        if self.session_key().is_none() {
            self.pending_tab_id_by_position.remove(tab.position);
            return None;
        }
        let key = self.pending_tab_claim_key_for_tab(tab);
        let id = match desk.claims.get(key.as_str()) {
            None => {
                self.pending_tab_id_by_position.remove(tab.position);
                return None;
            },
            Some(claim) => if claim.version == 1 && same_text(
                claim.observed_name.as_str(),
                tab.name.as_str(),
            ) && !claim.tab_id.as_str().is_empty() {
                Some(claim.tab_id.clone())
            } else {
                None
            },
        };
        match id {
            Some(id) => {
                self.pending_tab_id_by_position.insert(tab.position, id.clone());
                Some(id)
            },
            None => {
                self.clear_pending_tab_claim_for_tab(desk, tab);
                None
            },
        }
    }

    /// Claims an id for a tab.
    pub fn ensure_pending_tab_id_for_tab(&mut self, desk: &mut Desk, tab: &TabInfo) -> (r: Option<
        String,
    >)
        ensures
            (final(self)@, final(desk)@, string_view(r)) == ensured(old(self)@, old(desk)@, tab@),
    {
        if let Some(id) = self.refresh_pending_tab_id_for_tab(desk, tab) {
            return Some(id);
        }
        match self.mint_super_tab_id() {
            Some(id) => {
                if self.session_key().is_some() {
                    let key = self.pending_tab_claim_key_for_tab(tab);
                    let claim = PendingTabClaim {
                        version: 1,
                        observed_name: tab.name.clone(),
                        tab_id: id.clone(),
                    };
                    desk.claims.insert(key.clone(), claim.duplicate());
                    desk.push(Effect::WriteClaim { key, position: tab.position, claim });
                }
                self.pending_tab_id_by_position.insert(tab.position, id.clone());
                Some(id)
            },
            None => None,
        }
    }
}

// ---------------------------------------------------------------------------------------
// Targets
// ---------------------------------------------------------------------------------------

/// Where the row of a tab may come from: from what agrees with the name that the tab has, or,
/// while the tab is still to be renamed, from what does not.
#[derive(Debug, Clone, Copy, PartialEq, Eq, Structural)]
pub enum RowLoadPolicy {
    Stable,
    PendingRename { legacy_position_fallback: bool },
}

impl RowLoadPolicy {
    /// The policy while a tab is still to be renamed.
    pub fn pending_rename(legacy_position_fallback: bool) -> (r: Self)
        ensures
            r == (RowLoadPolicy::PendingRename { legacy_position_fallback }),
    {
        RowLoadPolicy::PendingRename { legacy_position_fallback }
    }

    /// Whether a row may disagree with the name that the tab has.
    pub fn allow_live_name_mismatch(self) -> (r: bool)
        ensures
            r == (self is PendingRename),
    {
        match self {
            RowLoadPolicy::Stable => false,
            RowLoadPolicy::PendingRename { .. } => true,
        }
    }

    /// Whether a row may be found under the position of the tab.
    pub fn allow_legacy_position_fallback(self) -> (r: bool)
        ensures
            r == (self == RowLoadPolicy::PendingRename { legacy_position_fallback: true }),
    {
        match self {
            RowLoadPolicy::Stable => false,
            RowLoadPolicy::PendingRename { legacy_position_fallback } => legacy_position_fallback,
        }
    }
}

/// Why an update has to wait.
#[derive(Debug, Clone, Copy, PartialEq, Eq, Structural)]
pub enum DeferredPipeReason {
    UnresolvedPane,
    MissingTab,
    SharedStateUnavailable,
}

/// Why an update is dropped.
#[derive(Debug, Clone, Copy, PartialEq, Eq, Structural)]
pub enum DropPipeReason {
    FollowerUnmanagedTab,
}

/// What an [`IdentityState`] stands for.
pub enum IdentityView {
    Managed,
    Pending { claim_key: Seq<char> },
    UnmanagedManual,
    UnmanagedDefault,
}

impl View for IdentityState {
    type V = IdentityView;

    open spec fn view(&self) -> IdentityView {
        match *self {
            IdentityState::Managed => IdentityView::Managed,
            IdentityState::Pending { claim_key } => IdentityView::Pending { claim_key: claim_key@ },
            IdentityState::UnmanagedManual => IdentityView::UnmanagedManual,
            IdentityState::UnmanagedDefault => IdentityView::UnmanagedDefault,
        }
    }
}

/// A tab with an id.
#[derive(Debug)]
pub struct ResolvedTabTarget {
    pub tab_id: String,
    pub identity: IdentityState,
    pub row_load_policy: RowLoadPolicy,
}

/// What a [`ResolvedTabTarget`] stands for.
#[verifier::ext_equal]
pub struct TargetView {
    pub tab_id: Seq<char>,
    pub identity: IdentityView,
    pub policy: RowLoadPolicy,
}

impl View for ResolvedTabTarget {
    type V = TargetView;

    open spec fn view(&self) -> TargetView {
        TargetView {
            tab_id: self.tab_id@,
            identity: self.identity@,
            policy: self.row_load_policy,
        }
    }
}

impl ResolvedTabTarget {
    /// Whether the tab is still to be renamed.
    pub fn rename_pending(&self) -> (r: bool)
        ensures
            r == (self@.policy is PendingRename),
    {
        self.row_load_policy.allow_live_name_mismatch()
    }
}

/// What becomes of an update for a tab, or of its row.
#[derive(Debug)]
pub enum TabTargetResolution {
    Ready(ResolvedTabTarget),
    Unmanaged(IdentityState),
    Defer(DeferredPipeReason),
    Drop(DropPipeReason),
}

/// What a [`TabTargetResolution`] stands for.
pub enum ResolutionView {
    Ready(TargetView),
    Unmanaged(IdentityView),
    Defer(DeferredPipeReason),
    Drop(DropPipeReason),
}

impl View for TabTargetResolution {
    type V = ResolutionView;

    open spec fn view(&self) -> ResolutionView {
        match *self {
            TabTargetResolution::Ready(target) => ResolutionView::Ready(target@),
            TabTargetResolution::Unmanaged(identity) => ResolutionView::Unmanaged(identity@),
            TabTargetResolution::Defer(reason) => ResolutionView::Defer(reason),
            TabTargetResolution::Drop(reason) => ResolutionView::Drop(reason),
        }
    }
}

/// A tab with a claimed id.
pub open spec fn pending_target(
    s: StateView,
    position: usize,
    id: Seq<char>,
    legacy: bool,
) -> TargetView {
    TargetView {
        tab_id: id,
        identity: IdentityView::Pending { claim_key: key_at(s, position) },
        policy: RowLoadPolicy::PendingRename { legacy_position_fallback: legacy },
    }
}

/// Finds the id of a tab that is not claimed: the one that its name carries.
pub open spec fn resolved_by_name(s: StateView, d: DeskView, tab: TabView, role: WriteRole) -> (
    StateView,
    DeskView,
    ResolutionView,
) {
    match id_in(tab.name) {
        Some(id) => {
            let seen = after_seeing(s, id);
            let target = ResolutionView::Ready(
                TargetView {
                    tab_id: id,
                    identity: IdentityView::Managed,
                    policy: RowLoadPolicy::Stable,
                },
            );
            if role == WriteRole::Leader {
                (
                    unclaimed(seen, tab.position),
                    desk_cleared(seen, d, tab.position),
                    target,
                )
            } else {
                (seen, d, target)
            }
        },
        None => (
            s,
            d,
            match role {
                WriteRole::Leader => ResolutionView::Unmanaged(unmanaged_identity(tab.name)@),
                WriteRole::Unavailable => ResolutionView::Defer(
                    DeferredPipeReason::SharedStateUnavailable,
                ),
                WriteRole::Follower => ResolutionView::Drop(DropPipeReason::FollowerUnmanagedTab),
            },
        ),
    }
}

/// Finds the id of a tab: for the leader the one that is claimed for it, otherwise the one
/// that its name carries.
pub open spec fn resolved(s: StateView, d: DeskView, tab: TabView, role: WriteRole) -> (
    StateView,
    DeskView,
    ResolutionView,
) {
    if role == WriteRole::Leader {
        let (s1, d1, found) = refreshed(s, d, tab);
        match found {
            Some(id) => (
                after_seeing(s1, id),
                d1,
                ResolutionView::Ready(pending_target(s1, tab.position, id, false)),
            ),
            None => resolved_by_name(s1, d1, tab, role),
        }
    } else {
        resolved_by_name(s, d, tab, role)
    }
}

/// Claims an id for a tab and gives the tab with it.
pub open spec fn ensured_target(s: StateView, d: DeskView, tab: TabView, legacy: bool) -> (
    StateView,
    DeskView,
    Option<TargetView>,
) {
    let (s1, d1, found) = ensured(s, d, tab);
    match found {
        Some(id) => (
            after_seeing(s1, id),
            d1,
            Some(pending_target(s1, tab.position, id, legacy)),
        ),
        None => (s1, d1, None),
    }
}

/// The view of an optional target.
pub open spec fn target_view(target: Option<ResolvedTabTarget>) -> Option<TargetView> {
    match target {
        Some(target) => Some(target@),
        None => None,
    }
}

impl State {
    /// Finds the id of a tab.
    pub fn resolve_tab_target(&mut self, desk: &mut Desk, tab: &TabInfo, write_role: WriteRole)
        -> (r: TabTargetResolution)
        ensures
            (final(self)@, final(desk)@, r@) == resolved(
                old(self)@,
                old(desk)@,
                tab@,
                write_role,
            ),
    {
        if write_role.can_write() {
            if let Some(tab_id) = self.refresh_pending_tab_id_for_tab(desk, tab) {
                self.observe_tab_id(tab_id.as_str());
                return TabTargetResolution::Ready(
                    ResolvedTabTarget {
                        tab_id,
                        identity: IdentityState::Pending {
                            claim_key: self.pending_tab_claim_key_for_tab(tab),
                        },
                        row_load_policy: RowLoadPolicy::pending_rename(false),
                    },
                );
            }
        }
        if let Some(tab_id) = self.live_tab_id_for_tab(tab) {
            self.observe_tab_id(tab_id.as_str());
            if write_role.can_write() {
                self.clear_pending_tab_claim_for_tab(desk, tab);
            }
            return TabTargetResolution::Ready(
                ResolvedTabTarget {
                    tab_id,
                    identity: IdentityState::Managed,
                    row_load_policy: RowLoadPolicy::Stable,
                },
            );
        }
        match write_role {
            WriteRole::Leader => TabTargetResolution::Unmanaged(
                unmanaged_identity_for_name(tab.name.as_str()),
            ),
            WriteRole::Unavailable => TabTargetResolution::Defer(
                DeferredPipeReason::SharedStateUnavailable,
            ),
            WriteRole::Follower => TabTargetResolution::Drop(DropPipeReason::FollowerUnmanagedTab),
        }
    }

    /// Claims an id for a tab and gives the tab with it.
    pub fn ensure_pending_target_for_tab(
        &mut self,
        desk: &mut Desk,
        tab: &TabInfo,
        legacy_position_fallback: bool,
    ) -> (r: Option<ResolvedTabTarget>)
        ensures
            (final(self)@, final(desk)@, target_view(r)) == ensured_target(
                old(self)@,
                old(desk)@,
                tab@,
                legacy_position_fallback,
            ),
    {
        match self.ensure_pending_tab_id_for_tab(desk, tab) {
            Some(tab_id) => {
                self.observe_tab_id(tab_id.as_str());
                Some(
                    ResolvedTabTarget {
                        tab_id,
                        identity: IdentityState::Pending {
                            claim_key: self.pending_tab_claim_key_for_tab(tab),
                        },
                        row_load_policy: RowLoadPolicy::pending_rename(legacy_position_fallback),
                    },
                )
            },
            None => None,
        }
    }

    /// The id that the name of a tab carries.
    pub fn live_tab_id_for_tab(&self, tab: &TabInfo) -> (r: Option<String>)
        ensures
            string_view(r) == id_in(tab@.name),
    {
        decode_super_tab_id(tab.name.as_str())
    }

    /// The id of a tab: the one that is claimed for it, or else the one that its name
    /// carries.
    pub fn resolved_tab_id_for_tab(&self, tab: &TabInfo) -> (r: Option<String>)
        ensures
            string_view(r) == shown_id(self@, tab@),
    {
        match self.pending_tab_id_by_position.get(tab.position) {
            Some(id) => Some(id.clone()),
            None => self.live_tab_id_for_tab(tab),
        }
    }

    /// The id of the tab at a position.
    pub fn tab_id_for_position(&self, tab_position: usize) -> (r: Option<String>)
        ensures
            string_view(r) == match tab_at(self@.tabs, tab_position) {
                Some(tab) => shown_id(self@, tab),
                None => None,
            },
    {
        match find_tab(&self.tabs, tab_position) {
            Some(tab) => self.resolved_tab_id_for_tab(tab),
            None => None,
        }
    }
}

/// The id of a tab as it is shown: the one that is claimed for it, or else the one that its
/// name carries.
pub open spec fn shown_id(s: StateView, tab: TabView) -> Option<Seq<char>> {
    if s.pending.contains_key(tab.position) {
        Some(s.pending[tab.position])
    } else {
        id_in(tab.name)
    }
}

/// Two states that differ at most in the claims and in the next number.
pub open spec fn same_but_ids(a: StateView, b: StateView) -> bool {
    b == (StateView { pending: b.pending, next_tab_id: b.next_tab_id, ..a })
}

/// Finding and claiming ids changes nothing but the claims and the next number.
pub proof fn lemma_ids_change_little(
    s: StateView,
    d: DeskView,
    tab: TabView,
    role: WriteRole,
    legacy: bool,
)
    ensures
        same_but_ids(s, resolved(s, d, tab, role).0),
        same_but_ids(s, ensured_target(s, d, tab, legacy).0),
        resolved(s, d, tab, role).1.rows == d.rows,
        ensured_target(s, d, tab, legacy).1.rows == d.rows,
{
}

// ---------------------------------------------------------------------------------------
// Laws
// ---------------------------------------------------------------------------------------

proof fn lemma_first_free(s: StateView, plugin_id: u32, n: u64)
    ensures
        first_free(s, plugin_id, n) matches Some(k) ==> n <= k && !taken(
            s,
            minted_id(plugin_id, k),
        ),
        forall|j: u64|
            n <= j && (first_free(s, plugin_id, n) is None || j < first_free(s, plugin_id, n)->0)
                ==> #[trigger] taken(s, minted_id(plugin_id, j)),
    decreases u64::MAX - n,
{
    if taken(s, minted_id(plugin_id, n)) && n < u64::MAX {
        lemma_first_free(s, plugin_id, (n + 1) as u64);
    }
}

/// A new id is not in use by any tab, row or claim, and it names the plugin that made it. There
/// is none only where every id from the next number on is in use.
pub proof fn new_ids_are_not_in_use(s: StateView)
    ensures
        match minted(s).1 {
            Some(id) => {
                &&& !taken(s, id)
                &&& minted_parts(id) is Some
                &&& (minted_parts(id)->0).0 == minting_plugin(s)
                &&& (minted_parts(id)->0).1 >= first_number(s)
            },
            None => forall|n: u64|
                first_number(s) <= n ==> #[trigger] taken(s, minted_id(minting_plugin(s), n)),
        },
{
    let first = first_number(s);
    lemma_first_free(s, minting_plugin(s), first);
    if let Some(n) = first_free(s, minting_plugin(s), first) {
        minted_ids_are_read_back(minting_plugin(s), n);
    }
}

/// An id that was seen is not made again: the next new id of the same plugin has a greater
/// number, as long as there are greater numbers.
pub proof fn ids_that_were_seen_are_not_made_again(s: StateView, id: Seq<char>)
    requires
        s.plugin_id is Some,
        minted_parts(id) matches Some((plugin_id, n)) && plugin_id == s.plugin_id->0 && n < u64::MAX,
    ensures
        minted(after_seeing(s, id)).1 matches Some(made) ==> (minted_parts(made)->0).1
            > (minted_parts(id)->0).1 && made != id,
{
    new_ids_are_not_in_use(after_seeing(s, id));
}

/// The id that was claimed for a tab is found again, as long as its panes and its name stay
/// what they were.
pub proof fn claimed_ids_are_found_again(s: StateView, d: DeskView, tab: TabView)
    requires
        has_store(s),
        ensured(s, d, tab).2 is Some,
    ensures
        ({
            let (s1, d1, id) = ensured(s, d, tab);
            &&& refreshed(s1, d1, tab) == (s1, d1, id)
            &&& ensured(s1, d1, tab) == (s1, d1, id)
            &&& shown_id(s1, tab) == id
        }),
{
    let (s1, d1, id) = ensured(s, d, tab);
    let (s0, d0, found) = refreshed(s, d, tab);
    if found is None {
        reveal_strlit("st-");
        assert(id->0.len() > 0);
    }
    assert(claimed(s1, tab.position, id->0) =~= s1);
}

/// Only the leader touches the files of the session: for any other role, finding the id of a
/// tab leaves the desk and the claims as they are.
pub proof fn only_the_leader_changes_claims(
    s: StateView,
    d: DeskView,
    tab: TabView,
    role: WriteRole,
)
    requires
        role != WriteRole::Leader,
    ensures
        resolved(s, d, tab, role).1 == d,
        resolved(s, d, tab, role).0.pending == s.pending,
{
}

/// A new id is carried by the name of no tab, and is that of no row and of no claim.
pub proof fn new_ids_are_nobodys(s: StateView)
    ensures
        minted(s).1 matches Some(id) ==> {
            &&& forall|i: int|
                0 <= i < s.tabs.len() ==> id_in((#[trigger] s.tabs[i]).name) != Some(id)
            &&& !s.rows.contains_key(id)
            &&& forall|p: usize| #[trigger] s.pending.contains_key(p) ==> s.pending[p] != id
        },
{
    new_ids_are_not_in_use(s);
}

/// Two ids that were made one after the other differ, as long as there are numbers left.
pub proof fn ids_made_in_turn_differ(s: StateView)
    ensures
        ({
            let (s1, first) = minted(s);
            let (_, second) = minted(s1);
            first is Some && second is Some && s1.next_tab_id < u64::MAX ==> first != second
        }),
{
    let (s1, first) = minted(s);
    let (_, second) = minted(s1);
    if first is Some && second is Some {
        let n = first_free(s, minting_plugin(s), first_number(s))->0;
        lemma_first_free(s, minting_plugin(s), first_number(s));
        new_ids_are_not_in_use(s1);
        minted_ids_are_read_back(minting_plugin(s), n);
    }
}

/// A claim gives a tab its id just if it is of the first version, was made under the key of the
/// tab for the name that the tab still has, and names an id. Looking it up records the id with
/// the tab, and drops a claim that does not hold.
pub proof fn claims_hold_for_the_name_they_were_made_for(s: StateView, d: DeskView, tab: TabView)
    requires
        has_store(s),
    ensures
        ({
            let key = key_at(s, tab.position);
            let (after, desk, found) = refreshed(s, d, tab);
            let holds = d.claims.contains_key(key) && d.claims[key].version == 1
                && d.claims[key].observed_name == tab.name && d.claims[key].tab_id.len() > 0;
            &&& holds ==> {
                &&& found == Some(d.claims[key].tab_id)
                &&& desk == d
                &&& after.pending.contains_key(tab.position)
                &&& after.pending[tab.position] == d.claims[key].tab_id
            }
            &&& !holds ==> {
                &&& found is None
                &&& !after.pending.contains_key(tab.position)
                &&& !desk.claims.contains_key(key)
                &&& d.claims.contains_key(key) ==> desk.effects == d.effects.push(
                    EffectView::ClearClaim { key, position: tab.position },
                )
                &&& !d.claims.contains_key(key) ==> desk.effects == d.effects
            }
            &&& forall|k: Seq<char>|
                k != key ==> (#[trigger] desk.claims.contains_key(k) <==> d.claims.contains_key(k))
                    && desk.claims[k] == d.claims[k]
            &&& forall|p: usize|
                p != tab.position ==> (#[trigger] after.pending.contains_key(p)
                    <==> s.pending.contains_key(p)) && after.pending[p] == s.pending[p]
            &&& desk.rows == d.rows
        }),
{
}

/// A new claim stands under the key of its tab, for the name that the tab has, is written to the
/// files of the session, and is for an id that was nobody's. One that holds already is kept.
pub proof fn claims_are_made_for_new_ids(s: StateView, d: DeskView, tab: TabView)
    requires
        has_store(s),
    ensures
        ({
            let key = key_at(s, tab.position);
            let (after, desk, found) = ensured(s, d, tab);
            let held = refreshed(s, d, tab).2;
            &&& held is Some ==> found == held && desk == d
            &&& held is None ==> (found matches Some(id) ==> {
                let claim = ClaimView { version: 1, observed_name: tab.name, tab_id: id };
                &&& desk.claims.contains_key(key)
                &&& desk.claims[key] == claim
                &&& desk.effects.last() == EffectView::WriteClaim {
                    key,
                    position: tab.position,
                    claim,
                }
                &&& forall|i: int|
                    0 <= i < s.tabs.len() ==> id_in((#[trigger] s.tabs[i]).name) != Some(id)
                &&& !s.rows.contains_key(id)
                &&& forall|p: usize|
                    p != tab.position && #[trigger] s.pending.contains_key(p) ==> s.pending[p] != id
            })
            &&& found matches Some(id) ==> after.pending.contains_key(tab.position)
                && after.pending[tab.position] == id
        }),
{
    let (s1, d1, found) = refreshed(s, d, tab);
    new_ids_are_nobodys(s1);
    assert forall|p: usize|
        p != tab.position && #[trigger] s.pending.contains_key(p) implies s1.pending.contains_key(
        p,
    ) && s1.pending[p] == s.pending[p] by {}
}

/// For the leader a claim that holds comes before the name of the tab. Otherwise the id in the
/// name is the id of the tab, for any role, and the leader drops the claim. A tab without either
/// is the leader's to give an id to, waits where nobody is known to lead, and is no concern of a
/// plugin that follows.
pub proof fn tabs_are_known_by_claim_or_name(
    s: StateView,
    d: DeskView,
    tab: TabView,
    role: WriteRole,
)
    requires
        has_store(s),
    ensures
        ({
            let key = key_at(s, tab.position);
            let (after, desk, found) = resolved(s, d, tab, role);
            let claim = if role == WriteRole::Leader {
                valid_claim(d, key, tab.name)
            } else {
                None
            };
            match (claim, id_in(tab.name)) {
                (Some(id), _) => found == ResolutionView::Ready(
                    TargetView {
                        tab_id: id,
                        identity: IdentityView::Pending { claim_key: key },
                        policy: RowLoadPolicy::PendingRename { legacy_position_fallback: false },
                    },
                ),
                (None, Some(id)) => {
                    &&& found == ResolutionView::Ready(
                        TargetView {
                            tab_id: id,
                            identity: IdentityView::Managed,
                            policy: RowLoadPolicy::Stable,
                        },
                    )
                    &&& role == WriteRole::Leader ==> !desk.claims.contains_key(key)
                        && !after.pending.contains_key(tab.position)
                },
                (None, None) => match role {
                    WriteRole::Leader => found is Unmanaged,
                    WriteRole::Unavailable => found is Defer,
                    WriteRole::Follower => found is Drop,
                },
            }
        }),
{
}

/// The shared state of a session can be used just if the folder is there and the session has a
/// name. Its key is as long as that name.
pub proof fn sessions_with_a_name_have_a_store(s: StateView)
    ensures
        has_store(s) <==> s.ready && s.mode.session_name is Some && s.mode.session_name->0.len()
            > 0,
        session_key_of(s) matches Some(key) ==> key == sanitized(s.mode.session_name->0) && key.len()
            == s.mode.session_name->0.len(),
{
}

/// The claim for a tab stands under its terminal panes: two tabs, at any time and at any position,
/// have the same key just if they hold the same terminal panes, or hold none and stand at the
/// same position.
pub proof fn claims_go_with_the_panes_of_a_tab(a: StateView, b: StateView, from: usize, to: usize)
    ensures
        ({
            let here = terminal_ids(panes_at(a.panes, from));
            let there = terminal_ids(panes_at(b.panes, to));
            key_at(a, from) == key_at(b, to) <==> here.to_multiset() == there.to_multiset() && (
            here.len() > 0 || from == to)
        }),
{
    claim_keys_tell_tabs_apart(
        terminal_ids(panes_at(a.panes, from)),
        terminal_ids(panes_at(b.panes, to)),
        from,
        to,
    );
}

/// A tab is shown under the id that is claimed for it, and else under the id in its name.
pub proof fn tabs_are_shown_under_their_id(s: StateView, tab: TabView)
    ensures
        s.pending.contains_key(tab.position) ==> shown_id(s, tab) == Some(s.pending[tab.position]),
        !s.pending.contains_key(tab.position) ==> shown_id(s, tab) == id_in(tab.name),
{
}

/// Without a store no claim is found and none is written: a tab is given a new id for the time
/// being, and the files of the session stay what they are.
pub proof fn nothing_is_claimed_in_files_without_a_store(s: StateView, d: DeskView, tab: TabView)
    requires
        !has_store(s),
    ensures
        refreshed(s, d, tab).2 is None,
        refreshed(s, d, tab).1 == d,
        ensured(s, d, tab).1 == d,
        ensured(s, d, tab).2 matches Some(id) ==> ensured(s, d, tab).0.pending == s.pending.insert(
            tab.position,
            id,
        ) && !s.rows.contains_key(id),
{
    let s1 = refreshed(s, d, tab).0;
    new_ids_are_nobodys(s1);
    if let Some(id) = ensured(s, d, tab).2 {
        assert(ensured(s, d, tab).0.pending =~= s.pending.insert(tab.position, id));
    }
}

} // verus!
