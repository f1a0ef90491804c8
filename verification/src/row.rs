//! Rows of the tab list, and what is kept of them between sessions.
use vstd::prelude::*;

use crate::map::{distinct_keys, lemma_map_of_keys, lemma_map_of_value, map_of, Record, TextMap};
use crate::markup::{
    cell_of_plain, cell_of_raw, cell_views, holds_directive, plain_writes_use_the_default_style,
    styled_glyphs, CellState, CellView,
};
use crate::schema::{column_views, names, ColumnView, Schema};
use crate::style::{gathering_keeps_glyphs, glyphs, paint, plain_style, pushing_adds_glyphs, Run};
use crate::tab_name::{
    cell_text, decode_tab_name, decoded, encode_tab_name_with_id, id_in, plain_key, tab_entries,
    tab_names_carry_id_and_texts, written_all, Entry, SUPER_TAB_ID_KEY,
};
use crate::text::{copy_option, same_option, same_text, string_view};
use crate::width::text_width;

verus! {

// ---------------------------------------------------------------------------------------
// Rows
// ---------------------------------------------------------------------------------------

/// The row of a tab: its cells, and the name that the tab was last given for them.
#[derive(Debug, Clone, PartialEq, Eq)]
pub struct TabRowState {
    pub cells: Vec<Option<CellState>>,
    pub last_mirrored_tab_name: Option<String>,
}

/// What a [`TabRowState`] stands for.
#[verifier::ext_equal]
pub struct RowView {
    pub cells: Seq<Option<CellView>>,
    pub mirrored: Option<Seq<char>>,
}

impl View for TabRowState {
    type V = RowView;

    open spec fn view(&self) -> RowView {
        RowView {
            cells: cell_views(self.cells@),
            mirrored: string_view(self.last_mirrored_tab_name),
        }
    }
}

fn copy_cell(cell: &Option<CellState>) -> (r: Option<CellState>)
    ensures
        cell_views(seq![r]) == cell_views(seq![*cell]),
{
    let r = match cell {
        Some(cell) => Some(cell.duplicate()),
        None => None,
    };
    assert(cell_views(seq![r]) =~= cell_views(seq![*cell]));
    r
}

impl Record for TabRowState {
    fn duplicate(&self) -> (r: Self) {
        let mut cells: Vec<Option<CellState>> = Vec::new();
        let mut i: usize = 0;
        while i < self.cells.len()
            invariant
                i <= self.cells.len(),
                cells@.len() == i,
                forall|j: int| 0 <= j < i ==> #[trigger] cell_views(cells@)[j] == cell_views(self.cells@)[j],
            decreases self.cells.len() - i,
        {
            let cell = copy_cell(&self.cells[i]);
            assert(cell_views(seq![cell])[0] == cell_views(seq![self.cells@[i as int]])[0]);
            let ghost before = cells@;
            cells.push(cell);
            i = i + 1;
            assert forall|j: int| 0 <= j < i implies #[trigger] cell_views(cells@)[j]
                == cell_views(self.cells@)[j] by {
                if j < i - 1 {
                    assert(cell_views(before)[j] == cell_views(self.cells@)[j]);
                }
            }
        }
        assert(cell_views(cells@) =~= cell_views(self.cells@));
        TabRowState { cells, last_mirrored_tab_name: copy_option(&self.last_mirrored_tab_name) }
    }

    fn agrees(&self, other: &Self) -> (r: bool) {
        if self.cells.len() != other.cells.len() {
            assert(self@.cells.len() != other@.cells.len());
            return false;
        }
        let mut i: usize = 0;
        while i < self.cells.len()
            invariant
                i <= self.cells.len(),
                self.cells.len() == other.cells.len(),
                forall|j: int| 0 <= j < i ==> #[trigger] self@.cells[j] == other@.cells[j],
            decreases self.cells.len() - i,
        {
            let same = match (&self.cells[i], &other.cells[i]) {
                (Some(a), Some(b)) => a.agrees(b),
                (None, None) => true,
                _ => false,
            };
            if !same {
                assert(self@.cells[i as int] != other@.cells[i as int]);
                return false;
            }
            i = i + 1;
        }
        assert(self@.cells =~= other@.cells);
        same_option(&self.last_mirrored_tab_name, &other.last_mirrored_tab_name)
    }
}

/// A row of `n` columns in which nothing was written.
pub open spec fn empty_row(n: nat) -> RowView {
    RowView { cells: Seq::new(n, |i: int| None), mirrored: None }
}

impl TabRowState {
    /// A row in which nothing was written.
    pub fn empty(schema: &Schema) -> (r: Self)
        ensures
            r@ == empty_row(schema@.len()),
            r.cells@.len() == schema@.len(),
    {
        let n: usize = schema.len();
        let mut cells: Vec<Option<CellState>> = Vec::new();
        while cells.len() < n
            invariant
                cells@.len() <= n,
                forall|j: int| 0 <= j < cells@.len() ==> #[trigger] cells@[j] is None,
            decreases n - cells.len(),
        {
            cells.push(None);
        }
        let r = TabRowState { cells, last_mirrored_tab_name: None };
        assert(r@.cells =~= empty_row(schema@.len()).cells);
        r
    }
}

// ---------------------------------------------------------------------------------------
// Rows and tab names
// ---------------------------------------------------------------------------------------

/// The cell that a tab name carries for a column.
pub open spec fn named_cell(map: Map<Seq<char>, Seq<char>>, column: ColumnView) -> Option<CellView> {
    if map.contains_key(column.name) && map[column.name].len() > 0 {
        Some(cell_of_plain(map[column.name], column.style))
    } else {
        None
    }
}

/// The cells that a tab name carries.
pub open spec fn named_cells(map: Map<Seq<char>, Seq<char>>, columns: Seq<ColumnView>) -> Seq<
    Option<CellView>,
> {
    Seq::new(columns.len(), |i: int| named_cell(map, columns[i]))
}

/// The row that a tab name carries, where it carries a text for any column.
pub open spec fn row_of_name(name: Seq<char>, columns: Seq<ColumnView>) -> Option<RowView> {
    match decoded(name) {
        Some(map) => if exists|i: int|
            0 <= i < columns.len() && #[trigger] named_cells(map, columns)[i] is Some {
            Some(RowView { cells: named_cells(map, columns), mirrored: Some(name) })
        } else {
            None
        },
        None => None,
    }
}

/// The view of an optional row.
pub open spec fn row_view(row: Option<TabRowState>) -> Option<RowView> {
    match row {
        Some(row) => Some(row@),
        None => None,
    }
}

/// Reads the row that a tab name carries.
pub fn build_row_state_from_tab_name(name: &str, schema: &Schema) -> (r: Option<TabRowState>)
    ensures
        row_view(r) == row_of_name(name@, schema@),
{
    let map = match decode_tab_name(name) {
        Some(map) => map,
        None => {
            return None;
        },
    };
    let columns = schema.columns();
    let ghost wanted = named_cells(map@, schema@);
    let mut cells: Vec<Option<CellState>> = Vec::new();
    let mut recognized = false;
    let mut i: usize = 0;
    while i < columns.len()
        invariant
            i <= columns.len(),
            column_views(columns@) == schema@,
            wanted == named_cells(map@, schema@),
            cells@.len() == i,
            forall|j: int| 0 <= j < i ==> #[trigger] cell_views(cells@)[j] == wanted[j],
            recognized == exists|j: int| 0 <= j < i && #[trigger] wanted[j] is Some,
        decreases columns.len() - i,
    {
        let column = &columns[i];
        assert(schema@[i as int] == column@);
        let cell = match map.get(column.name.as_str()) {
            Some(value) => if value.as_str().is_empty() {
                None
            } else {
                Some(CellState::from_plain_text(value.as_str(), &column.default_style))
            },
            None => None,
        };
        let ghost before = cells@;
        let ghost known = recognized;
        if cell.is_some() {
            recognized = true;
        }
        cells.push(cell);
        proof {
            assert(wanted[i as int] == named_cell(map@, column@));
            assert(cell_views(cells@)[i as int] == wanted[i as int]);
            assert forall|j: int| 0 <= j < i + 1 implies #[trigger] cell_views(cells@)[j]
                == wanted[j] by {
                if j < i {
                    assert(cell_views(before)[j] == wanted[j]);
                }
            }
            if recognized && !known {
                assert(wanted[i as int] is Some);
            }
        }
        i = i + 1;
    }
    assert(cell_views(cells@) =~= wanted);
    if !recognized {
        return None;
    }
    Some(TabRowState { cells, last_mirrored_tab_name: Some(name.to_owned()) })
}

/// The name that a tab gets for its row.
pub open spec fn mirrored_name(
    columns: Seq<ColumnView>,
    cells: Seq<Option<CellView>>,
    id: Seq<char>,
) -> Seq<char> {
    written_all(tab_entries(names(columns), cells, Some(id)))
}

/// The name that a tab gets for its row.
pub fn name_for_row(row: &TabRowState, id: &str, schema: &Schema) -> (r: String)
    ensures
        r@ == mirrored_name(schema@, row@.cells, id@),
{
    encode_tab_name_with_id(schema.columns(), row.cells.as_slice(), Some(id))
}

// ---------------------------------------------------------------------------------------
// Rows on disk
// ---------------------------------------------------------------------------------------

/// What is kept of a row.
#[derive(Debug)]
pub struct PersistedTabState {
    pub version: u8,
    pub mirrored_name: String,
    pub cells: TextMap<String>,
}

/// What a [`PersistedTabState`] stands for.
#[verifier::ext_equal]
pub struct PersistedView {
    pub version: u8,
    pub mirrored_name: Seq<char>,
    pub cells: Map<Seq<char>, Seq<char>>,
}

impl View for PersistedTabState {
    type V = PersistedView;

    open spec fn view(&self) -> PersistedView {
        PersistedView {
            version: self.version,
            mirrored_name: self.mirrored_name@,
            cells: self.cells@,
        }
    }
}

impl Record for PersistedTabState {
    fn duplicate(&self) -> (r: Self) {
        PersistedTabState {
            version: self.version,
            mirrored_name: self.mirrored_name.clone(),
            cells: self.cells.duplicate(),
        }
    }

    fn agrees(&self, other: &Self) -> (r: bool) {
        self.version == other.version && self.mirrored_name.agrees(&other.mirrored_name)
            && self.cells.agrees(&other.cells)
    }
}

/// A claim on an id for a tab whose name does not carry it yet.
#[derive(Debug, Clone)]
pub struct PendingTabClaim {
    pub version: u8,
    pub observed_name: String,
    pub tab_id: String,
}

/// What a [`PendingTabClaim`] stands for.
#[verifier::ext_equal]
pub struct ClaimView {
    pub version: u8,
    pub observed_name: Seq<char>,
    pub tab_id: Seq<char>,
}

impl View for PendingTabClaim {
    type V = ClaimView;

    open spec fn view(&self) -> ClaimView {
        ClaimView {
            version: self.version,
            observed_name: self.observed_name@,
            tab_id: self.tab_id@,
        }
    }
}

impl Record for PendingTabClaim {
    fn duplicate(&self) -> (r: Self) {
        PendingTabClaim {
            version: self.version,
            observed_name: self.observed_name.clone(),
            tab_id: self.tab_id.clone(),
        }
    }

    fn agrees(&self, other: &Self) -> (r: bool) {
        self.version == other.version && self.observed_name.agrees(&other.observed_name)
            && self.tab_id.agrees(&other.tab_id)
    }
}

/// The cell that was kept for a column.
pub open spec fn kept_cell(kept: Map<Seq<char>, Seq<char>>, column: ColumnView) -> Option<CellView> {
    if kept.contains_key(column.name) {
        Some(cell_of_raw(kept[column.name], column.style))
    } else {
        None
    }
}

/// The row that was kept, where it is of the first version.
pub open spec fn row_of_persisted(kept: PersistedView, columns: Seq<ColumnView>) -> Option<RowView> {
    if kept.version != 1 {
        None
    } else {
        Some(
            RowView {
                cells: Seq::new(columns.len(), |i: int| kept_cell(kept.cells, columns[i])),
                mirrored: Some(kept.mirrored_name),
            },
        )
    }
}

/// Reads a row that was kept.
pub fn row_state_from_persisted(persisted: &PersistedTabState, schema: &Schema) -> (r: Option<
    TabRowState,
>)
    ensures
        row_view(r) == row_of_persisted(persisted@, schema@),
{
    if persisted.version != 1 {
        return None;
    }
    let columns = schema.columns();
    let ghost wanted = row_of_persisted(persisted@, schema@)->0.cells;
    let mut cells: Vec<Option<CellState>> = Vec::new();
    let mut i: usize = 0;
    while i < columns.len()
        invariant
            i <= columns.len(),
            column_views(columns@) == schema@,
            persisted@.version == 1,
            wanted == row_of_persisted(persisted@, schema@)->0.cells,
            cells@.len() == i,
            forall|j: int| 0 <= j < i ==> #[trigger] cell_views(cells@)[j] == wanted[j],
        decreases columns.len() - i,
    {
        let column = &columns[i];
        assert(schema@[i as int] == column@);
        let cell = match persisted.cells.get(column.name.as_str()) {
            Some(raw) => Some(CellState::from_raw(raw.as_str(), &column.default_style)),
            None => None,
        };
        let ghost before = cells@;
        cells.push(cell);
        proof {
            assert(cell_views(cells@)[i as int] == wanted[i as int]);
            assert forall|j: int| 0 <= j < i + 1 implies #[trigger] cell_views(cells@)[j]
                == wanted[j] by {
                if j < i {
                    assert(cell_views(before)[j] == wanted[j]);
                }
            }
        }
        i = i + 1;
    }
    assert(cell_views(cells@) =~= wanted);
    Some(TabRowState { cells, last_mirrored_tab_name: Some(persisted.mirrored_name.clone()) })
}

/// What was written into a cell; nothing for one that was not written.
pub open spec fn raw_text(cell: Option<CellView>) -> Seq<char> {
    match cell {
        Some(cell) => cell.raw_input,
        None => Seq::empty(),
    }
}

/// What was written into the cells of the first `n` columns, where anything was.
pub open spec fn raw_entries(
    columns: Seq<ColumnView>,
    cells: Seq<Option<CellView>>,
    n: int,
) -> Seq<Entry>
    decreases n,
{
    if n <= 0 {
        Seq::empty()
    } else {
        let before = raw_entries(columns, cells, n - 1);
        let text = raw_text(cells[n - 1]);
        if text.len() == 0 {
            before
        } else {
            before.push((columns[n - 1].name, text))
        }
    }
}

/// What is kept of a row under the given name.
pub open spec fn persisted_of(columns: Seq<ColumnView>, row: RowView, name: Seq<char>) -> PersistedView {
    PersistedView {
        version: 1,
        mirrored_name: name,
        cells: map_of(raw_entries(columns, row.cells, columns.len() as int)),
    }
}

/// What to keep of a row.
pub fn persisted_row(row: &TabRowState, mirrored_name: &str, schema: &Schema) -> (r:
    PersistedTabState)
    requires
        row.cells@.len() == schema@.len(),
    ensures
        r@ == persisted_of(schema@, row@, mirrored_name@),
{
    let columns = schema.columns();
    let mut cells: TextMap<String> = TextMap::new();
    let mut i: usize = 0;
    while i < columns.len()
        invariant
            i <= columns.len(),
            column_views(columns@) == schema@,
            row.cells@.len() == schema@.len(),
            cells@ == map_of(raw_entries(schema@, row@.cells, i as int)),
        decreases columns.len() - i,
    {
        assert(schema@[i as int] == columns@[i as int]@);
        assert(row@.cells[i as int] == match row.cells@[i as int] {
            Some(cell) => Some(cell@),
            None => None,
        });
        let ghost before = raw_entries(schema@, row@.cells, i as int);
        if let Some(cell) = &row.cells[i] {
            if !cell.raw_input.as_str().is_empty() {
                cells.insert(columns[i].name.clone(), cell.raw_input.clone());
                proof {
                    let after = before.push((schema@[i as int].name, cell.raw_input@));
                    assert(after.drop_last() =~= before);
                }
            }
        }
        i = i + 1;
    }
    PersistedTabState { version: 1, mirrored_name: mirrored_name.to_owned(), cells }
}

// ---------------------------------------------------------------------------------------
// Updates
// ---------------------------------------------------------------------------------------

/// A cell after updates: written anew where they hold another text for it.
pub open spec fn updated_cell(
    updates: Map<Seq<char>, Seq<char>>,
    column: ColumnView,
    cell: Option<CellView>,
) -> Option<CellView> {
    if updates.contains_key(column.name) && updates[column.name] != raw_text(cell) {
        Some(cell_of_raw(updates[column.name], column.style))
    } else {
        cell
    }
}

/// A row after updates.
pub open spec fn updated_row(
    updates: Map<Seq<char>, Seq<char>>,
    columns: Seq<ColumnView>,
    row: RowView,
) -> RowView {
    RowView {
        cells: Seq::new(
            columns.len(),
            |i: int| updated_cell(updates, columns[i], row.cells[i]),
        ),
        mirrored: row.mirrored,
    }
}

/// Writes updates into a row. Says whether anything changed.
pub fn apply_updates_to_row(row: &mut TabRowState, schema: &Schema, updates: &TextMap<String>)
    -> (changed: bool)
    requires
        old(row).cells@.len() == schema@.len(),
    ensures
        final(row)@ == updated_row(updates@, schema@, old(row)@),
        changed == (final(row)@ != old(row)@),
        final(row).cells@.len() == schema@.len(),
{
    let columns = schema.columns();
    let ghost start = row@;
    let ghost wanted = updated_row(updates@, schema@, start);
    let mut changed = false;
    let mut i: usize = 0;
    while i < columns.len()
        invariant
            i <= columns.len(),
            column_views(columns@) == schema@,
            row.cells@.len() == schema@.len(),
            start.cells.len() == schema@.len(),
            wanted == updated_row(updates@, schema@, start),
            row@.mirrored == start.mirrored,
            forall|j: int| 0 <= j < i ==> #[trigger] row@.cells[j] == wanted.cells[j],
            forall|j: int| i <= j < schema@.len() ==> #[trigger] row@.cells[j] == start.cells[j],
            changed == exists|j: int| 0 <= j < i && #[trigger] wanted.cells[j] != start.cells[j],
        decreases columns.len() - i,
    {
        let column = &columns[i];
        assert(schema@[i as int] == column@);
        assert(row@.cells[i as int] == start.cells[i as int]);
        let ghost before = row@.cells;
        let ghost known = changed;
        if let Some(value) = updates.get(column.name.as_str()) {
            let same = match &row.cells[i] {
                Some(cell) => same_text(cell.raw_input.as_str(), value.as_str()),
                None => value.as_str().is_empty(),
            };
            assert(same == (value@ == raw_text(start.cells[i as int]))) by {
                if row.cells@[i as int] is None {
                    assert(raw_text(start.cells[i as int]) =~= Seq::<char>::empty());
                    if value@.len() == 0 {
                        assert(value@ =~= Seq::<char>::empty());
                    }
                }
            }
            if !same {
                let cell = CellState::from_raw(value.as_str(), &column.default_style);
                row.cells.set(i, Some(cell));
                changed = true;
                assert(row@.cells =~= before.update(i as int, Some(cell@)));
            }
        }
        proof {
            assert(wanted.cells[i as int] == updated_cell(
                updates@,
                schema@[i as int],
                start.cells[i as int],
            ));
            assert(row@.cells[i as int] == wanted.cells[i as int]);
            if changed && !known {
                assert(wanted.cells[i as int] != start.cells[i as int]);
            }
        }
        i = i + 1;
    }
    proof {
        assert(row@.cells =~= wanted.cells);
        if !changed {
            assert(row@.cells =~= start.cells);
        } else {
            let j = choose|j: int|
                0 <= j < schema@.len() && #[trigger] wanted.cells[j] != start.cells[j];
            assert(row@.cells[j] != start.cells[j]);
        }
    }
    changed
}

/// The displayed width of a cell, where it was written.
pub open spec fn cell_width(row: RowView, i: int) -> Option<usize> {
    match row.cells[i] {
        Some(cell) => Some(text_width(cell.plain_text)),
        None => None,
    }
}

// ---------------------------------------------------------------------------------------
// Laws
// ---------------------------------------------------------------------------------------

/// An entry of what was written belongs to a column.
proof fn lemma_raw_entry(columns: Seq<ColumnView>, cells: Seq<Option<CellView>>, n: int, k: int)
    requires
        0 <= n <= columns.len(),
        0 <= k < raw_entries(columns, cells, n).len(),
    ensures
        exists|i: int|
            0 <= i < n && (#[trigger] columns[i]).name == raw_entries(columns, cells, n)[k].0
                && raw_text(cells[i]) == raw_entries(columns, cells, n)[k].1 && raw_text(
                cells[i],
            ).len() > 0,
    decreases n,
{
    let all = raw_entries(columns, cells, n);
    let before = raw_entries(columns, cells, n - 1);
    if k < before.len() {
        lemma_raw_entry(columns, cells, n - 1, k);
        let i = choose|i: int|
            0 <= i < n - 1 && (#[trigger] columns[i]).name == before[k].0 && raw_text(cells[i])
                == before[k].1 && raw_text(cells[i]).len() > 0;
        assert(columns[i].name == all[k].0);
    } else {
        assert(columns[n - 1].name == all[k].0);
    }
}

/// A column in which something was written has an entry.
proof fn lemma_raw_has_entry(
    columns: Seq<ColumnView>,
    cells: Seq<Option<CellView>>,
    n: int,
    i: int,
) -> (k: int)
    requires
        0 <= i < n <= columns.len(),
        raw_text(cells[i]).len() > 0,
    ensures
        0 <= k < raw_entries(columns, cells, n).len(),
        raw_entries(columns, cells, n)[k] == (columns[i].name, raw_text(cells[i])),
    decreases n,
{
    if i == n - 1 {
        raw_entries(columns, cells, n - 1).len() as int
    } else {
        lemma_raw_has_entry(columns, cells, n - 1, i)
    }
}

proof fn lemma_raw_distinct(columns: Seq<ColumnView>, cells: Seq<Option<CellView>>, n: int)
    requires
        0 <= n <= columns.len(),
        names(columns).no_duplicates(),
    ensures
        distinct_keys(raw_entries(columns, cells, n)),
    decreases n,
{
    if n > 0 {
        let before = raw_entries(columns, cells, n - 1);
        let all = raw_entries(columns, cells, n);
        lemma_raw_distinct(columns, cells, n - 1);
        assert forall|i: int, j: int| 0 <= i < j < all.len() implies (#[trigger] all[i]).0 != (
        #[trigger] all[j]).0 by {
            assert(all[i] == before[i]);
            if j < before.len() {
                assert(all[j] == before[j]);
            } else {
                lemma_raw_entry(columns, cells, n - 1, i);
                let k = choose|k: int|
                    0 <= k < n - 1 && (#[trigger] columns[k]).name == before[i].0 && raw_text(
                        cells[k],
                    ) == before[i].1 && raw_text(cells[k]).len() > 0;
                assert(names(columns)[k] != names(columns)[n - 1]);
            }
        }
    }
}

/// A row that was kept is read back under the name it was kept with: every cell that was
/// written with a text, with its styles. A cell that was written empty is read back as one
/// that was not written.
pub proof fn kept_rows_are_read_back(columns: Seq<ColumnView>, row: RowView, name: Seq<char>)
    requires
        names(columns).no_duplicates(),
        row.cells.len() == columns.len(),
        forall|i: int|
            0 <= i < columns.len() && (#[trigger] row.cells[i]) is Some ==> row.cells[i]
                == Some(cell_of_raw(raw_text(row.cells[i]), columns[i].style)),
    ensures
        row_of_persisted(persisted_of(columns, row, name), columns) == Some(
            RowView {
                cells: Seq::new(
                    columns.len(),
                    |i: int|
                        if raw_text(row.cells[i]).len() > 0 {
                            row.cells[i]
                        } else {
                            None
                        },
                ),
                mirrored: Some(name),
            },
        ),
{
    let n = columns.len() as int;
    let entries = raw_entries(columns, row.cells, n);
    let kept = persisted_of(columns, row, name);
    lemma_raw_distinct(columns, row.cells, n);
    let got = row_of_persisted(kept, columns)->0.cells;
    let wanted = Seq::new(
        columns.len(),
        |i: int|
            if raw_text(row.cells[i]).len() > 0 {
                row.cells[i]
            } else {
                None
            },
    );
    assert forall|i: int| 0 <= i < n implies #[trigger] got[i] == wanted[i] by {
        let key = columns[i].name;
        lemma_map_of_keys(entries, key);
        if raw_text(row.cells[i]).len() > 0 {
            let k = lemma_raw_has_entry(columns, row.cells, n, i);
            lemma_map_of_value(entries, k);
            assert(row.cells[i] is Some);
        } else if kept.cells.contains_key(key) {
            let k = choose|k: int| 0 <= k < entries.len() && (#[trigger] entries[k]).0 == key;
            lemma_raw_entry(columns, row.cells, n, k);
            let j = choose|j: int|
                0 <= j < n && (#[trigger] columns[j]).name == entries[k].0 && raw_text(
                    row.cells[j],
                ) == entries[k].1 && raw_text(row.cells[j]).len() > 0;
            assert(names(columns)[j] == names(columns)[i]);
            assert(j == i);
        }
    }
    assert(got =~= wanted);
}

/// Whatever was written into the cells of a row, each of its texts is read back from what was
/// kept of it, and so is the name it was kept with.
pub proof fn kept_texts_are_read_back(columns: Seq<ColumnView>, row: RowView, name: Seq<char>)
    requires
        names(columns).no_duplicates(),
        row.cells.len() == columns.len(),
    ensures
        row_of_persisted(persisted_of(columns, row, name), columns) matches Some(got) ==> {
            &&& got.cells.len() == columns.len()
            &&& got.mirrored == Some(name)
            &&& forall|i: int| #![trigger got.cells[i]]
                0 <= i < columns.len() ==> raw_text(got.cells[i]) == raw_text(row.cells[i]) && (
                got.cells[i] is Some <==> raw_text(row.cells[i]).len() > 0)
        },
        row_of_persisted(persisted_of(columns, row, name), columns) is Some,
{
    let n = columns.len() as int;
    let entries = raw_entries(columns, row.cells, n);
    let kept = persisted_of(columns, row, name);
    lemma_raw_distinct(columns, row.cells, n);
    let got = row_of_persisted(kept, columns)->0.cells;
    assert forall|i: int| #![trigger got[i]] 0 <= i < n implies raw_text(got[i]) == raw_text(
        row.cells[i],
    ) && (got[i] is Some <==> raw_text(row.cells[i]).len() > 0) by {
        let key = columns[i].name;
        lemma_map_of_keys(entries, key);
        if raw_text(row.cells[i]).len() > 0 {
            let k = lemma_raw_has_entry(columns, row.cells, n, i);
            lemma_map_of_value(entries, k);
        } else {
            assert(raw_text(row.cells[i]) =~= Seq::<char>::empty());
            if kept.cells.contains_key(key) {
                let k = choose|k: int| 0 <= k < entries.len() && (#[trigger] entries[k]).0 == key;
                lemma_raw_entry(columns, row.cells, n, k);
                let j = choose|j: int|
                    0 <= j < n && (#[trigger] columns[j]).name == entries[k].0 && raw_text(
                        row.cells[j],
                    ) == entries[k].1 && raw_text(row.cells[j]).len() > 0;
                assert(names(columns)[j] == names(columns)[i]);
                assert(j == i);
            }
        }
    }
}

/// Writing the same updates again changes nothing.
pub proof fn updating_twice_is_updating_once(
    updates: Map<Seq<char>, Seq<char>>,
    columns: Seq<ColumnView>,
    row: RowView,
)
    ensures
        updated_row(updates, columns, updated_row(updates, columns, row)) == updated_row(
            updates,
            columns,
            row,
        ),
{
    let once = updated_row(updates, columns, row);
    let twice = updated_row(updates, columns, once);
    assert forall|i: int| 0 <= i < columns.len() implies #[trigger] twice.cells[i]
        == once.cells[i] by {
        assert(once.cells[i] == updated_cell(updates, columns[i], row.cells[i]));
    }
    assert(twice.cells =~= once.cells);
}

/// The name that a tab gets for its row carries the texts of the row: read back, each column
/// that has a text has it again, in the style of the column, and the id is that of the tab.
pub proof fn rows_are_read_back_from_names(
    columns: Seq<ColumnView>,
    cells: Seq<Option<CellView>>,
    id: Seq<char>,
)
    requires
        forall|i: int|
            0 <= i < columns.len() ==> plain_key((#[trigger] columns[i]).name) && columns[i].name
                != SUPER_TAB_ID_KEY@,
        names(columns).no_duplicates(),
        id.len() > 0,
        exists|i: int| 0 <= i < columns.len() && #[trigger] cell_text(cells, i).len() > 0,
    ensures
        id_in(mirrored_name(columns, cells, id)) == Some(id),
        row_of_name(mirrored_name(columns, cells, id), columns) == Some(
            RowView {
                cells: Seq::new(
                    columns.len(),
                    |i: int|
                        if cell_text(cells, i).len() > 0 {
                            Some(cell_of_plain(cell_text(cells, i), columns[i].style))
                        } else {
                            None
                        },
                ),
                mirrored: Some(mirrored_name(columns, cells, id)),
            },
        ),
{
    let keys = names(columns);
    let name = mirrored_name(columns, cells, id);
    assert forall|i: int| 0 <= i < keys.len() implies plain_key(#[trigger] keys[i]) && keys[i]
        != SUPER_TAB_ID_KEY@ by {
        assert(keys[i] == columns[i].name);
    }
    tab_names_carry_id_and_texts(keys, cells, Some(id));
    let map = decoded(name)->0;
    let got = named_cells(map, columns);
    let wanted = Seq::new(
        columns.len(),
        |i: int|
            if cell_text(cells, i).len() > 0 {
                Some(cell_of_plain(cell_text(cells, i), columns[i].style))
            } else {
                None
            },
    );
    assert forall|i: int| 0 <= i < columns.len() implies #[trigger] got[i] == wanted[i] by {
        assert(keys[i] == columns[i].name);
    }
    assert(got =~= wanted);
    let i = choose|i: int| 0 <= i < columns.len() && #[trigger] cell_text(cells, i).len() > 0;
    assert(got[i] is Some);
}

/// A text that an update gives is read like one that was kept: with the styles of its directives,
/// or in the style of its column where it has none. A column that holds the text already, or that
/// the update does not name, keeps its cell. The name that the row was last shown under stays.
pub proof fn updates_are_read_as_they_are_written(
    updates: Map<Seq<char>, Seq<char>>,
    columns: Seq<ColumnView>,
    row: RowView,
    i: int,
)
    requires
        0 <= i < columns.len(),
    ensures
        ({
            let after = updated_row(updates, columns, row);
            let key = columns[i].name;
            &&& after.cells.len() == columns.len()
            &&& after.mirrored == row.mirrored
            &&& updates.contains_key(key) && updates[key] != raw_text(row.cells[i]) ==> {
                &&& after.cells[i] == Some(cell_of_raw(updates[key], columns[i].style))
                &&& !holds_directive(updates[key]) ==> glyphs(after.cells[i]->0.styled_text)
                    == paint(updates[key], columns[i].style)
                &&& holds_directive(updates[key]) ==> glyphs(after.cells[i]->0.styled_text)
                    == styled_glyphs(updates[key], plain_style())
            }
            &&& !updates.contains_key(key) || updates[key] == raw_text(row.cells[i])
                ==> after.cells[i] == row.cells[i]
        }),
{
    if updates.contains_key(columns[i].name) {
        let text = updates[columns[i].name];
        let style = columns[i].style;
        gathering_keeps_glyphs(styled_glyphs(text, plain_style()));
        if !holds_directive(text) {
            plain_writes_use_the_default_style(text, style);
            pushing_adds_glyphs(Seq::empty(), text, style);
            assert(glyphs(Seq::<Run>::empty()) + paint(text, style) =~= paint(text, style));
        }
    }
}

} // verus!
