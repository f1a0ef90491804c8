//! The list of tabs as it is shown.
use vstd::multiset::Multiset;
use vstd::prelude::*;
use vstd::slice::slice_subrange;

use crate::align::{
    cells_fit, columns_stand_at_their_place, empty_lines_take_the_whole_width,
    lemma_clipped_narrow, lemma_content_narrow, lemma_marked_narrow,
    lemma_narrow_is_free_of_escapes, line_shows, lined_up, lines_show_content_and_border,
    lines_take_the_whole_width, narrow_cells, shown_cell, shown_cells,
};
use crate::escapes::{holds_part, without_escapes};
use crate::identity::shown_id;
use crate::ids::{nobodys_name, unmanaged_identity, unmanaged_identity_for_name, IdentityState};
use crate::layout::{fit_and_measure, fitted, greatest};
use crate::map::Record;
use crate::markup::{parse_styled_string, styled_runs, CellView};
use crate::range::{
    calculate_visible_range, every_tab_is_shown_or_counted, shown_range, the_active_tab_is_shown,
    Shown,
};
use crate::row::TabRowState;
use crate::schema::{column_views, rules, ColumnView, Schema};
use crate::share::HIGH;
use crate::state::{
    fits_columns, pane_views, panes_at, tab_at, PaneInfo, PaneView, RenderConfig, RenderView, State,
    StateView, TabInfo, TabView,
};
use crate::style::{
    ansi_after, clipped_end, clipping_the_end_keeps_a_beginning, extend_runs,
    extending_joins_glyphs, gathering_keeps_glyphs, glyphs, glyphs_columns, head_fit,
    lemma_columns_join, lemma_head_fit, measured, narrow_glyphs, paint, plain_style, push_run,
    pushing_adds_glyphs, runs_width, style_code, InlineStyle, Run, StyledText,
};
use crate::text::{
    begins_with, chars_of, decimal, decimal_string, string_of, string_view, strip_prefix, trim,
    trimmed,
};
use crate::width::{columns, columns_of, text_columns};
use crate::widths::{
    columns_and_gaps_fit_the_list, flows_by, others_total, solve_column_widths, solved_widths,
    width_total, widths_follow_the_rules,
};

verus! {

// ---------------------------------------------------------------------------------------
// Small texts
// ---------------------------------------------------------------------------------------

/// What is left of a number after another is taken away.
pub open spec fn rest(a: nat, b: nat) -> nat {
    if a >= b {
        (a - b) as nat
    } else {
        0
    }
}

fn rest_of(a: usize, b: u128) -> (r: usize)
    ensures
        r == rest(a as nat, b as nat),
{
    if a as u128 >= b {
        (a as u128 - b) as usize
    } else {
        0
    }
}

/// Spaces.
pub open spec fn spaces(n: nat) -> Seq<char> {
    Seq::new(n, |i: int| ' ')
}

/// Spaces that take the given columns.
fn blank(n: usize) -> (r: String)
    ensures
        r@ == spaces(n as nat),
        columns(' ') == 1,
{
    let step: usize = columns_of(' ');
    let mut r = String::new();
    let mut i: usize = 0;
    assert(r@ =~= spaces(0));
    while i < n
        invariant
            i <= n,
            r@ == spaces(i as nat),
            step == 1,
        decreases n - i,
    {
        r.push(' ');
        i = i + step;
        assert(r@ =~= spaces(i as nat));
    }
    r
}

/// A text with every occurrence of a pattern replaced, from left to right.
pub open spec fn replaced(s: Seq<char>, pattern: Seq<char>, with: Seq<char>) -> Seq<char>
    decreases s.len(),
{
    if s.len() == 0 {
        Seq::empty()
    } else if pattern.len() > 0 && begins_with(s, pattern) {
        with + replaced(s.skip(pattern.len() as int), pattern, with)
    } else {
        seq![s[0]] + replaced(s.drop_first(), pattern, with)
    }
}

/// A format with a number in place of `{count}`.
pub fn expand_overflow_format(format: &str, count: usize) -> (r: String)
    ensures
        r@ == replaced(format@, "{count}"@, decimal(count as nat)),
{
    let chars = chars_of(format);
    let number = decimal_string(count as u64);
    let mut r = String::new();
    let mut i: usize = 0;
    let ghost goal = replaced(format@, "{count}"@, number@);
    proof {
        reveal_strlit("{count}");
        assert(format@.skip(0) =~= format@);
        assert(r@ + goal =~= goal);
    }
    while i < chars.len()
        invariant
            i <= chars.len(),
            chars@ == format@,
            "{count}"@.len() == 7,
            goal == r@ + replaced(format@.skip(i as int), "{count}"@, number@),
        decreases chars.len() - i,
    {
        let here = slice_subrange(chars.as_slice(), i, chars.len());
        let ghost tail = format@.skip(i as int);
        assert(here@ =~= tail);
        let ghost before = r@;
        if strip_prefix(here, "{count}").is_some() {
            r.append(number.as_str());
            i = i + 7;
            proof {
                assert(tail.skip(7) =~= format@.skip(i as int));
                let later = replaced(tail.skip(7), "{count}"@, number@);
                assert(before + (number@ + later) =~= r@ + later);
            }
        } else {
            r.push(chars[i]);
            i = i + 1;
            proof {
                assert(tail.drop_first() =~= format@.skip(i as int));
                let later = replaced(tail.drop_first(), "{count}"@, number@);
                assert(before + (seq![tail[0]] + later) =~= r@ + later);
            }
        }
    }
    assert(format@.skip(i as int).len() == 0);
    assert(r@ + Seq::<char>::empty() =~= r@);
    r
}

/// The marks that a tab bears.
pub open spec fn indicators(render: RenderView, tab: TabView) -> Seq<char> {
    (if tab.fullscreen {
        render.fullscreen
    } else {
        Seq::empty()
    }) + (if tab.sync {
        render.sync
    } else {
        Seq::empty()
    }) + (if tab.active {
        render.active
    } else {
        Seq::empty()
    })
}

/// The width of all marks that a tab can bear.
pub open spec fn indicator_width(render: RenderView) -> nat {
    runs_width(styled_runs(render.fullscreen + render.sync + render.active))
}

/// The width of the border.
pub open spec fn border_width(render: RenderView) -> nat {
    runs_width(styled_runs(render.border))
}

/// The columns that are left of the border.
pub open spec fn inner_width(render: RenderView, cols: nat) -> nat {
    rest(cols, border_width(render))
}

/// A border of nothing but printable ASCII and horizontal ellipses.
pub open spec fn narrow_border(render: RenderView) -> bool {
    narrow_glyphs(glyphs(styled_runs(render.border)))
}

impl RenderConfig {
    fn indicator_text(&self, tab: &TabInfo) -> (r: String)
        ensures
            r@ == indicators(self@, tab@),
    {
        let mut text = String::new();
        if tab.is_fullscreen_active {
            text.append(self.indicator_fullscreen.as_str());
        }
        if tab.is_sync_panes_active {
            text.append(self.indicator_sync.as_str());
        }
        if tab.active {
            text.append(self.indicator_active.as_str());
        }
        assert(text@ =~= indicators(self@, tab@));
        text
    }

    fn max_indicator_width(&self) -> (w: u128)
        ensures
            w == indicator_width(self@),
    {
        let mut text = String::new();
        text.append(self.indicator_fullscreen.as_str());
        text.append(self.indicator_sync.as_str());
        text.append(self.indicator_active.as_str());
        assert(text@ =~= self@.fullscreen + self@.sync + self@.active);
        parse_styled_string(text.as_str()).wide_width()
    }

    fn inner_columns(&self, cols: usize) -> (r: usize)
        ensures
            r == inner_width(self@, cols as nat),
            narrow_border(self@) ==> measured(styled_runs(self@.border)),
    {
        rest_of(cols, parse_styled_string(self.border.as_str()).wide_width())
    }
}

// ---------------------------------------------------------------------------------------
// The content of a row
// ---------------------------------------------------------------------------------------

/// The title of the focused terminal pane, where it says something.
pub open spec fn focused_title(panes: Seq<PaneView>) -> Option<Seq<char>>
    decreases panes.len(),
{
    if panes.len() == 0 {
        None
    } else if panes[0].focused && !panes[0].plugin {
        let title = trimmed(panes[0].title);
        if title.len() == 0 || begins_with(title, "Pane #"@) || begins_with(title, "Tab #"@) {
            None
        } else {
            Some(title)
        }
    } else {
        focused_title(panes.drop_first())
    }
}

fn find_title(panes: &Vec<PaneInfo>) -> (r: Option<String>)
    ensures
        string_view(r) == focused_title(pane_views(panes@)),
{
    let ghost all = pane_views(panes@);
    let mut i: usize = 0;
    assert(all.skip(0) =~= all);
    while i < panes.len()
        invariant
            i <= panes.len(),
            all == pane_views(panes@),
            focused_title(all) == focused_title(all.skip(i as int)),
        decreases panes.len() - i,
    {
        assert(all.skip(i as int)[0] == panes@[i as int]@);
        assert(all.skip(i as int).drop_first() =~= all.skip(i + 1));
        if panes[i].is_focused && !panes[i].is_plugin {
            let chars = chars_of(panes[i].title.as_str());
            let title = trim(chars.as_slice());
            if title.len() == 0 || strip_prefix(title, "Pane #").is_some() || strip_prefix(
                title,
                "Tab #",
            ).is_some() {
                return None;
            }
            return Some(string_of(title));
        }
        i = i + 1;
    }
    None
}

/// What is shown for a tab that has no row: the name that its user gave it, or else the title of
/// its focused pane, or else its position.
pub open spec fn fallback_name(s: StateView, tab: TabView) -> Seq<char> {
    if unmanaged_identity(tab.name) == IdentityState::UnmanagedManual {
        tab.name
    } else {
        match focused_title(panes_at(s.panes, tab.position)) {
            Some(title) => title,
            None => "Tab "@ + decimal(tab.position as nat),
        }
    }
}

/// Content with the marks of its tab behind it.
pub open spec fn with_indicators(
    content: Seq<Run>,
    render: RenderView,
    tab: TabView,
    gap: bool,
) -> Seq<Run> {
    let marks = indicators(render, tab);
    if marks.len() == 0 {
        content
    } else {
        extend_runs(
            if gap {
                push_run(content, " "@, plain_style())
            } else {
                content
            },
            styled_runs(marks),
        )
    }
}

/// The content for a tab that has no row.
pub open spec fn unmanaged_content(s: StateView, tab: TabView) -> Seq<Run> {
    let name = fallback_name(s, tab);
    with_indicators(
        push_run(Seq::empty(), name, plain_style()),
        s.render,
        tab,
        name.len() > 0,
    )
}

/// The runs of a cell; none for one that was not written.
pub open spec fn cell_runs(cells: Seq<Option<CellView>>, i: int) -> Seq<Run> {
    match cells[i] {
        Some(cell) => cell.styled_text,
        None => Seq::empty(),
    }
}

/// The content of the first `n` columns: each cell fitted to the width of its column and padded
/// with spaces, and a space between columns.
pub open spec fn columns_content(
    columns: Seq<ColumnView>,
    cells: Seq<Option<CellView>>,
    widths: Seq<usize>,
    n: int,
) -> Seq<Run>
    decreases n,
{
    if n <= 0 {
        Seq::empty()
    } else {
        let i = n - 1;
        let cell = fitted(cell_runs(cells, i), columns[i].rule, widths[i] as nat);
        let padded = push_run(
            extend_runs(columns_content(columns, cells, widths, n - 1), cell),
            spaces(rest(widths[i] as nat, runs_width(cell))),
            plain_style(),
        );
        if n < columns.len() {
            push_run(padded, " "@, plain_style())
        } else {
            padded
        }
    }
}

/// The widest cell of each column.
pub open spec fn natural_widths(widths: Seq<Multiset<usize>>) -> Seq<usize> {
    widths.map_values(|w: Multiset<usize>| greatest(w))
}

/// The columns that are left for cells: without the border and the marks.
pub open spec fn cell_space(render: RenderView, cols: nat) -> nat {
    let marks = indicator_width(render);
    rest(
        inner_width(render, cols),
        marks + if marks > 0 {
            1nat
        } else {
            0
        },
    )
}

/// The widths of the columns in a list of the given width: the same for every tab.
pub open spec fn shown_widths(s: StateView, columns: Seq<ColumnView>, cols: nat) -> Seq<usize> {
    solved_widths(
        rules(columns),
        natural_widths(s.widths),
        cell_space(s.render, cols),
        1,
    )
}

/// The content for a tab.
pub open spec fn tab_content(s: StateView, tab: TabView, cols: nat) -> Seq<Run> {
    let id = match tab_at(s.tabs, tab.position) {
        Some(found) => shown_id(s, found),
        None => None,
    };
    match s.columns {
        None => push_run(Seq::empty(), tab.name, plain_style()),
        Some(columns) => if id is None || !s.rows.contains_key(id->0) {
            unmanaged_content(s, tab)
        } else {
            let content = columns_content(
                columns,
                s.rows[id->0].cells,
                shown_widths(s, columns, cols),
                columns.len() as int,
            );
            clipped_end(
                with_indicators(content, s.render, tab, true),
                inner_width(s.render, cols),
            )
        },
    }
}

fn push_indicators(content: &mut StyledText, render: &RenderConfig, tab: &TabInfo, gap: bool)
    ensures
        final(content)@ == with_indicators(old(content)@, render@, tab@, gap),
{
    let marks = render.indicator_text(tab);
    if !marks.as_str().is_empty() {
        if gap {
            content.push_plain(" ");
        }
        content.extend(parse_styled_string(marks.as_str()));
    }
}

impl State {
    /// The title of the focused terminal pane of a tab, where it says something.
    pub fn get_focused_pane_title(&self, tab_position: usize) -> (r: Option<String>)
        ensures
            string_view(r) == focused_title(panes_at(self@.panes, tab_position)),
    {
        match self.pane_manifest.place(tab_position) {
            Some(i) => find_title(&self.pane_manifest.panes[i].1),
            None => None,
        }
    }

    fn name_without_row(&self, tab: &TabInfo) -> (r: String)
        ensures
            r@ == fallback_name(self@, tab@),
    {
        match unmanaged_identity_for_name(tab.name.as_str()) {
            IdentityState::UnmanagedManual => tab.name.clone(),
            _ => match self.get_focused_pane_title(tab.position) {
                Some(title) => title,
                None => {
                    let mut name = "Tab ".to_owned();
                    name.append(decimal_string(tab.position as u64).as_str());
                    name
                },
            },
        }
    }

    /// The content for a tab that has no row.
    pub fn render_unmanaged_row(&self, tab: &TabInfo) -> (r: StyledText)
        ensures
            r@ == unmanaged_content(self@, tab@),
    {
        let name = self.name_without_row(tab);
        let mut content = StyledText::plain(name.as_str());
        push_indicators(&mut content, &self.render, tab, !name.as_str().is_empty());
        content
    }

    fn natural_column_widths(&self) -> (r: Vec<usize>)
        ensures
            r@ == natural_widths(self@.widths),
    {
        let mut r: Vec<usize> = Vec::new();
        let mut i: usize = 0;
        while i < self.width_indexes.len()
            invariant
                i <= self.width_indexes.len(),
                r@.len() == i,
                forall|j: int| 0 <= j < i ==> #[trigger] r@[j] == natural_widths(self@.widths)[j],
            decreases self.width_indexes.len() - i,
        {
            r.push(self.width_indexes[i].max());
            i = i + 1;
        }
        assert(r@ =~= natural_widths(self@.widths));
        r
    }

    fn columns_of_row(&self, row: &TabRowState, schema: &Schema, widths: &Vec<usize>) -> (r:
        StyledText)
        requires
            row.cells@.len() == schema@.len(),
            widths@.len() == schema@.len(),
        ensures
            r@ == columns_content(schema@, row@.cells, widths@, schema@.len() as int),
            narrow_cells(row@.cells) ==> cells_fit(
                schema@,
                row@.cells,
                widths@,
                schema@.len() as int,
            ),
    {
        let columns = schema.columns();
        let mut content = StyledText::new();
        let mut i: usize = 0;
        while i < columns.len()
            invariant
                i <= columns.len(),
                column_views(columns@) == schema@,
                row.cells@.len() == schema@.len(),
                widths@.len() == schema@.len(),
                content@ == columns_content(schema@, row@.cells, widths@, i as int),
                narrow_cells(row@.cells) ==> cells_fit(schema@, row@.cells, widths@, i as int),
            decreases columns.len() - i,
        {
            assert(schema@[i as int] == columns@[i as int]@);
            assert(row@.cells[i as int] == match row.cells@[i as int] {
                Some(cell) => Some(cell@),
                None => None,
            });
            let styled = match &row.cells[i] {
                Some(cell) => cell.styled_text.duplicate(),
                None => StyledText::new(),
            };
            let width: usize = widths[i];
            assert(styled@ =~= cell_runs(row@.cells, i as int));
            let (cell, taken) = fit_and_measure(&styled, columns[i].resize_spec, width);
            assert(cell@ == shown_cell(schema@, row@.cells, widths@, i as int));
            let padding: usize = rest_of(width, taken);
            content.extend(cell);
            content.push_plain(blank(padding).as_str());
            if i + 1 < columns.len() {
                content.push_plain(" ");
            }
            i = i + 1;
        }
        content
    }

    /// The content for a tab. Where its cells are narrow, its columns stand where those of
    /// every tab stand; where its marks are narrow too, it ends at the right edge as displayed.
    pub fn render_tab_content(&self, tab: &TabInfo, cols: usize) -> (r: StyledText)
        requires
            fits_columns(self@),
        ensures
            r@ == tab_content(self@, tab@, cols as nat),
            shown_cells(self@, tab@) matches Some(cells) ==> narrow_cells(cells) ==> {
                &&& lined_up(self@, tab@, cols as nat, glyphs(r@))
                &&& cells_fit(
                    self@.columns->0,
                    cells,
                    shown_widths(self@, self@.columns->0, cols as nat),
                    self@.columns->0.len() as int,
                )
                &&& narrow_glyphs(glyphs(styled_runs(indicators(self@.render, tab@))))
                    ==> narrow_glyphs(glyphs(r@)) && measured(r@) && runs_width(r@) <= inner_width(
                    self@.render,
                    cols as nat,
                )
            },
    {
        let schema = match &self.schema {
            Some(schema) => schema,
            None => {
                return StyledText::plain(tab.name.as_str());
            },
        };
        let id = match self.tab_id_for_position(tab.position) {
            Some(id) => id,
            None => {
                return self.render_unmanaged_row(tab);
            },
        };
        let row = match self.rows_by_tab_id.get(id.as_str()) {
            Some(row) => row,
            None => {
                return self.render_unmanaged_row(tab);
            },
        };
        let inner: usize = self.render.inner_columns(cols);
        let marks: u128 = self.render.max_indicator_width();
        let space: usize = if marks > 0 {
            if marks >= inner as u128 {
                0
            } else {
                rest_of(inner, marks + 1)
            }
        } else {
            inner
        };
        assert(space == cell_space(self@.render, cols as nat));
        let naturals = self.natural_column_widths();
        assert(row@.cells.len() == row.cells@.len());
        let gap: usize = columns_of(' ');
        let widths = solve_column_widths(schema.columns(), naturals.as_slice(), space, gap);
        proof {
            widths_follow_the_rules(
                rules(schema@),
                naturals@,
                space as nat,
                1,
            );
        }
        let mut content = self.columns_of_row(row, schema, &widths);
        push_indicators(&mut content, &self.render, tab, true);
        proof {
            let cells = row@.cells;
            assert(shown_cells(self@, tab@) == Some(cells));
            assert(widths@ == shown_widths(self@, schema@, cols as nat));
            if narrow_cells(cells) {
                columns_stand_at_their_place(self@, tab@, cols as nat);
                lemma_content_narrow(schema@, cells, widths@, schema@.len() as int);
                if narrow_glyphs(glyphs(styled_runs(indicators(self@.render, tab@)))) {
                    lemma_marked_narrow(
                        columns_content(schema@, cells, widths@, schema@.len() as int),
                        self@.render,
                        tab@,
                    );
                    lemma_clipped_narrow(content@, inner as nat);
                }
            }
        }
        content.clip_end(inner)
    }
}

// ---------------------------------------------------------------------------------------
// Lines
// ---------------------------------------------------------------------------------------

/// A style with text and background exchanged.
pub open spec fn inverse(style: InlineStyle) -> InlineStyle {
    InlineStyle { fg: style.bg, bg: style.fg, fill: false, ..style }
}

/// Runs shown in reverse.
pub open spec fn filled(runs: Seq<Run>) -> Seq<char>
    decreases runs.len(),
{
    if runs.len() == 0 {
        Seq::empty()
    } else {
        let (text, style) = runs.last();
        filled(runs.drop_last()) + (if inverse(style) != plain_style() {
            "\x1b[0m\x1b[7m"@ + style_code(inverse(style))
        } else {
            Seq::empty()
        }) + text
    }
}

/// A run asks to be shown in reverse.
pub open spec fn wants_fill(runs: Seq<Run>) -> bool {
    exists|i: int| 0 <= i < runs.len() && (#[trigger] runs[i]).1.fill
}

/// The border, shown.
pub open spec fn border_text(render: RenderView) -> Seq<char> {
    if border_width(render) > 0 {
        ansi_after(styled_runs(render.border), plain_style())
    } else {
        Seq::empty()
    }
}

/// Content cut to the list.
pub open spec fn line_content(render: RenderView, content: Seq<Run>, cols: nat) -> Seq<Run> {
    clipped_end(content, inner_width(render, cols))
}

/// The spaces behind content.
pub open spec fn line_padding(render: RenderView, content: Seq<Run>, cols: nat) -> Seq<char> {
    spaces(
        rest(
            inner_width(render, cols),
            runs_width(line_content(render, content, cols)),
        ),
    )
}

/// A line of the list.
pub open spec fn line_text(
    render: RenderView,
    content: Seq<Run>,
    cols: nat,
    selected: bool,
) -> Seq<char> {
    let shown = line_content(render, content, cols);
    let padding = line_padding(render, content, cols);
    (if selected && wants_fill(shown) {
        "\x1b[7m"@ + filled(shown) + padding + "\x1b[0m"@
    } else {
        ansi_after(shown, plain_style()) + padding
    }) + border_text(render)
}

/// A line with nothing in it.
pub open spec fn empty_line_text(render: RenderView, cols: nat) -> Seq<char> {
    spaces(inner_width(render, cols)) + border_text(render)
}

/// The texts of lines.
pub open spec fn line_views(lines: Seq<String>) -> Seq<Seq<char>> {
    lines.map_values(|l: String| l@)
}

/// Lines, with empty ones behind them up to the given number.
pub open spec fn lines_padded(
    lines: Seq<Seq<char>>,
    render: RenderView,
    rows: nat,
    cols: nat,
) -> Seq<Seq<char>> {
    lines + Seq::new(rest(rows, lines.len()), |i: int| empty_line_text(render, cols))
}

/// The lines of a message.
pub open spec fn message_lines(
    render: RenderView,
    message: Seq<char>,
    rows: nat,
    cols: nat,
) -> Seq<Seq<char>> {
    lines_padded(
        seq![line_text(render, push_run(Seq::empty(), message, plain_style()), cols, false)],
        render,
        rows,
        cols,
    )
}

/// The line that says how many tabs are not shown on one side, where there are any.
pub open spec fn overflow_lines(
    render: RenderView,
    format: Seq<char>,
    count: int,
    cols: nat,
) -> Seq<Seq<char>> {
    if count > 0 {
        seq![
            line_text(
                render,
                styled_runs(replaced(format, "{count}"@, decimal(count as nat))),
                cols,
                false,
            ),
        ]
    } else {
        Seq::empty()
    }
}

/// The lines of the tabs from one index up to another.
pub open spec fn tab_lines(s: StateView, start: int, end: int, cols: nat) -> Seq<Seq<char>>
    decreases end - start,
{
    if end <= start {
        Seq::empty()
    } else {
        let before = tab_lines(s, start, end - 1, cols);
        if end - 1 < s.tabs.len() {
            let tab = s.tabs[end - 1];
            before.push(line_text(s.render, tab_content(s, tab, cols), cols, tab.active))
        } else {
            before
        }
    }
}

/// The position of the active tab among the tabs.
pub open spec fn active_index(s: StateView) -> int {
    rest(s.active as nat, 1) as int
}

/// The lines of the list.
pub open spec fn list_lines(s: StateView, rows: nat, cols: nat) -> Seq<Seq<char>> {
    let top = s.render.padding_top as nat;
    let r = shown_range(s.tabs.len() as int, rest(rows, top) as int, active_index(s));
    lines_padded(
        Seq::new(top, |i: int| empty_line_text(s.render, cols)) + overflow_lines(
            s.render,
            s.render.overflow_above,
            r.above,
            cols,
        ) + tab_lines(s, r.start, r.end, cols) + overflow_lines(
            s.render,
            s.render.overflow_below,
            r.below,
            cols,
        ),
        s.render,
        rows,
        cols,
    )
}

/// Lines as they are printed: each ends in plain style, and all but the last in a new line.
pub open spec fn printed(lines: Seq<Seq<char>>) -> Seq<char>
    decreases lines.len(),
{
    if lines.len() == 0 {
        Seq::empty()
    } else if lines.len() == 1 {
        lines[0] + "\x1b[m"@
    } else {
        printed(lines.drop_last()) + "\n"@ + lines.last() + "\x1b[m"@
    }
}

/// What is shown.
pub open spec fn shown_text(s: StateView, rows: nat, cols: nat) -> Seq<char> {
    if !s.granted {
        printed(
            message_lines(
                s.render,
                "super-tabs: waiting for ReadApplicationState + ChangeApplicationState permissions"@,
                rows,
                cols,
            ),
        )
    } else if s.load_error is Some {
        printed(message_lines(s.render, s.load_error->0, rows, cols))
    } else if s.tabs.len() == 0 {
        Seq::empty()
    } else {
        printed(list_lines(s, rows, cols))
    }
}

fn fills(content: &StyledText) -> (r: bool)
    ensures
        r == wants_fill(content@),
{
    let mut i: usize = 0;
    while i < content.segments.len()
        invariant
            i <= content.segments.len(),
            forall|j: int| 0 <= j < i ==> !(#[trigger] content@[j]).1.fill,
        decreases content.segments.len() - i,
    {
        assert(content@[i as int] == content.segments@[i as int]@);
        if content.segments[i].style.fill {
            return true;
        }
        i = i + 1;
    }
    false
}

fn filled_text(content: &StyledText) -> (r: String)
    ensures
        r@ == filled(content@),
{
    let mut out = String::new();
    let mut i: usize = 0;
    assert(out@ =~= filled(content@.take(0)));
    while i < content.segments.len()
        invariant
            i <= content.segments.len(),
            out@ == filled(content@.take(i as int)),
        decreases content.segments.len() - i,
    {
        let segment = &content.segments[i];
        let swapped = InlineStyle {
            fg: segment.style.bg,
            bg: segment.style.fg,
            bold: segment.style.bold,
            dim: segment.style.dim,
            fill: false,
        };
        let ghost before = out@;
        let ghost code = if inverse(segment.style) != plain_style() {
            "\x1b[0m\x1b[7m"@ + style_code(inverse(segment.style))
        } else {
            Seq::empty()
        };
        if swapped.has_any_style() {
            out.append("\x1b[0m\x1b[7m");
            out.append(swapped.to_ansi().as_str());
        }
        assert(out@ =~= before + code);
        out.append(segment.text.as_str());
        i = i + 1;
        proof {
            let t = content@.take(i as int);
            assert(t.drop_last() =~= content@.take(i - 1));
            assert(t.last() == segment@);
        }
    }
    assert(content@.take(content@.len() as int) =~= content@);
    out
}

impl RenderConfig {
    fn push_border(&self, line: &mut String)
        ensures
            final(line)@ == old(line)@ + border_text(self@),
    {
        let border = parse_styled_string(self.border.as_str());
        if border.wide_width() > 0 {
            line.append(border.to_ansi().as_str());
        } else {
            assert(line@ =~= line@ + border_text(self@));
        }
    }

    /// A line of the list.
    pub fn build_line(&self, content: &StyledText, cols: usize, is_selected: bool) -> (r: String)
        ensures
            r@ == line_text(self@, content@, cols as nat, is_selected),
            narrow_glyphs(glyphs(content@)) && narrow_border(self@) ==> without_escapes(r@)
                == line_shows(self@, content@, cols as nat),
            narrow_glyphs(glyphs(content@)) && narrow_border(self@) && border_width(self@) <= cols
                ==> text_columns(without_escapes(r@)) == cols,
    {
        proof {
            if narrow_glyphs(glyphs(content@)) && narrow_border(self@) {
                lemma_clipped_narrow(content@, inner_width(self@, cols as nat));
                lemma_narrow_is_free_of_escapes(line_content(self@, content@, cols as nat));
                lemma_narrow_is_free_of_escapes(styled_runs(self@.border));
                lines_show_content_and_border(self@, content@, cols as nat, is_selected);
            }
        }
        let ghost whole = content@;
        let inner: usize = self.inner_columns(cols);
        let content = content.clip_end(inner);
        let padding = blank(rest_of(inner, content.wide_width()));
        let mut line = String::new();
        if is_selected && fills(&content) {
            line.append("\x1b[7m");
            line.append(filled_text(&content).as_str());
            line.append(padding.as_str());
            line.append("\x1b[0m");
            assert(line@ =~= "\x1b[7m"@ + filled(content@) + padding@ + "\x1b[0m"@);
        } else {
            line.append(content.to_ansi().as_str());
            line.append(padding.as_str());
            assert(line@ =~= ansi_after(content@, plain_style()) + padding@);
        }
        self.push_border(&mut line);
        proof {
            if narrow_glyphs(glyphs(whole)) && narrow_border(self@) && border_width(self@) <= cols {
                lines_take_the_whole_width(self@, whole, cols as nat);
            }
        }
        line
    }

    /// A line with nothing in it.
    pub fn build_empty_line(&self, cols: usize) -> (r: String)
        ensures
            r@ == empty_line_text(self@, cols as nat),
            narrow_border(self@) && border_width(self@) <= cols ==> text_columns(
                without_escapes(r@),
            ) == cols,
    {
        let mut line = blank(self.inner_columns(cols));
        self.push_border(&mut line);
        proof {
            if narrow_border(self@) && border_width(self@) <= cols {
                lemma_narrow_is_free_of_escapes(styled_runs(self@.border));
                empty_lines_take_the_whole_width(self@, cols as nat);
            }
        }
        line
    }

    /// Puts empty lines behind others, up to the given number.
    fn pad_lines(&self, lines: &mut Vec<String>, rows: usize, cols: usize)
        ensures
            line_views(final(lines)@) == lines_padded(
                line_views(old(lines)@),
                self@,
                rows as nat,
                cols as nat,
            ),
    {
        let ghost before = line_views(lines@);
        while lines.len() < rows
            invariant
                before.len() <= lines@.len(),
                lines@.len() <= rows || lines@.len() == before.len(),
                line_views(lines@) == before + Seq::new(
                    (lines@.len() - before.len()) as nat,
                    |i: int| empty_line_text(self@, cols as nat),
                ),
            decreases rows - lines.len(),
        {
            let line = self.build_empty_line(cols);
            let ghost now = line_views(lines@);
            lines.push(line);
            assert(line_views(lines@) =~= now.push(line@));
            assert(line_views(lines@) =~= before + Seq::new(
                (lines@.len() - before.len()) as nat,
                |i: int| empty_line_text(self@, cols as nat),
            ));
        }
    }

    /// The lines of a message.
    pub fn render_message(&self, rows: usize, cols: usize, message: &str) -> (r: Vec<String>)
        ensures
            line_views(r@) == message_lines(self@, message@, rows as nat, cols as nat),
    {
        let mut lines: Vec<String> = Vec::new();
        lines.push(self.build_line(&StyledText::plain(message), cols, false));
        assert(line_views(lines@) =~= seq![
            line_text(
                self@,
                push_run(Seq::empty(), message@, plain_style()),
                cols as nat,
                false,
            ),
        ]);
        self.pad_lines(&mut lines, rows, cols);
        lines
    }

    fn push_overflow(&self, lines: &mut Vec<String>, format: &str, count: usize, cols: usize)
        ensures
            line_views(final(lines)@) == line_views(old(lines)@) + overflow_lines(
                self@,
                format@,
                count as int,
                cols as nat,
            ),
    {
        let ghost before = line_views(lines@);
        if count > 0 {
            let text = expand_overflow_format(format, count);
            let styled = parse_styled_string(text.as_str());
            lines.push(self.build_line(&styled, cols, false));
        }
        assert(line_views(lines@) =~= before + overflow_lines(
            self@,
            format@,
            count as int,
            cols as nat,
        ));
    }
}

/// Lines as they are printed.
fn print_text(lines: &Vec<String>) -> (r: String)
    ensures
        r@ == printed(line_views(lines@)),
{
    let ghost all = line_views(lines@);
    let mut out = String::new();
    let mut i: usize = 0;
    assert(out@ =~= printed(all.take(0)));
    while i < lines.len()
        invariant
            i <= lines.len(),
            all == line_views(lines@),
            out@ == printed(all.take(i as int)),
        decreases lines.len() - i,
    {
        let ghost before = out@;
        if i > 0 {
            out.append("\n");
        }
        out.append(lines[i].as_str());
        out.append("\x1b[m");
        i = i + 1;
        proof {
            let t = all.take(i as int);
            assert(t.drop_last() =~= all.take(i - 1));
            assert(t.last() == lines@[i - 1]@);
            if i == 1 {
                assert(before =~= Seq::<char>::empty());
                assert(out@ =~= t[0] + "\x1b[m"@);
            }
        }
    }
    assert(all.take(all.len() as int) =~= all);
    out
}

impl State {
    /// The lines of the list.
    pub fn render_vertical(&self, rows: usize, cols: usize) -> (r: Vec<String>)
        requires
            fits_columns(self@),
        ensures
            line_views(r@) == list_lines(self@, rows as nat, cols as nat),
    {
        let top: usize = self.render.padding_top;
        let available: usize = rest_of(rows, top as u128);
        let active: usize = rest_of(self.active_tab_idx, 1);
        let (start, end, above, below) = calculate_visible_range(
            self.tabs.len(),
            available,
            active,
        );
        let mut lines: Vec<String> = Vec::new();
        assert(line_views(lines@) =~= Seq::<Seq<char>>::empty());
        self.render.pad_lines(&mut lines, top, cols);
        assert(line_views(lines@) =~= Seq::new(
            top as nat,
            |i: int| empty_line_text(self@.render, cols as nat),
        ));
        self.render.push_overflow(&mut lines, self.render.overflow_above.as_str(), above, cols);
        let ghost head = line_views(lines@);
        let mut i: usize = start;
        assert(head + tab_lines(self@, start as int, start as int, cols as nat) =~= head);
        while i < end
            invariant
                start <= end ==> start <= i <= end,
                start > end ==> i == start,
                fits_columns(self@),
                line_views(lines@) == head + tab_lines(
                    self@,
                    start as int,
                    i as int,
                    cols as nat,
                ),
            decreases end - i,
        {
            let ghost before = tab_lines(self@, start as int, i as int, cols as nat);
            if i < self.tabs.len() {
                let tab = &self.tabs[i];
                assert(self@.tabs[i as int] == tab@);
                let content = self.render_tab_content(tab, cols);
                let line = self.render.build_line(&content, cols, tab.active);
                let ghost now = line_views(lines@);
                lines.push(line);
                assert(line_views(lines@) =~= now.push(line@));
                assert(now.push(line@) =~= head + before.push(line@));
            }
            i = i + 1;
        }
        assert(tab_lines(self@, start as int, i as int, cols as nat) == tab_lines(
            self@,
            start as int,
            end as int,
            cols as nat,
        ));
        self.render.push_overflow(&mut lines, self.render.overflow_below.as_str(), below, cols);
        self.render.pad_lines(&mut lines, rows, cols);
        lines
    }

    /// What is shown in the given rows and columns.
    pub fn render(&mut self, rows: usize, cols: usize) -> (r: String)
        requires
            fits_columns(old(self)@),
        ensures
            final(self)@ == (StateView { last_rows: rows, ..old(self)@ }),
            r@ == shown_text(old(self)@, rows as nat, cols as nat),
    {
        let lines = if !self.permissions_granted {
            self.render.render_message(
                rows,
                cols,
                "super-tabs: waiting for ReadApplicationState + ChangeApplicationState permissions",
            )
        } else {
            match &self.load_error {
                Some(error) => self.render.render_message(rows, cols, error.as_str()),
                None => if self.tabs.len() == 0 {
                    let none: Vec<String> = Vec::new();
                    assert(printed(line_views(none@)) == Seq::<char>::empty());
                    none
                } else {
                    self.render_vertical(rows, cols)
                },
            }
        };
        self.last_rows = rows;
        print_text(&lines)
    }
}

// ---------------------------------------------------------------------------------------
// Clicks
// ---------------------------------------------------------------------------------------

/// The tab that a click on a row asks for, counted from one. The row that counts the tabs above
/// asks for the last of those, and any row below the list for the first tab below, or the last
/// of all.
pub open spec fn tab_clicked(s: StateView, row: int) -> Option<int> {
    let top = s.render.padding_top as int;
    let count = s.tabs.len() as int;
    let r = shown_range(count, rest(s.last_rows as nat, top as nat) as int, active_index(s));
    let k = row - top - if r.above > 0 {
        1int
    } else {
        0
    };
    if count == 0 || row < top {
        None
    } else if r.above > 0 && row == top {
        Some(rest(r.start as nat, 1) as int + 1)
    } else if r.start + k < r.end && r.start + k < count {
        Some(r.start + k + 1)
    } else if k >= r.end - r.start {
        Some(
            if r.end < count {
                r.end + 1
            } else {
                count
            },
        )
    } else {
        None
    }
}

/// The result of a click.
pub open spec fn click_view(r: Option<usize>) -> Option<int> {
    match r {
        Some(index) => Some(index as int),
        None => None,
    }
}

impl State {
    /// The tab that a click on a row asks for, counted from one.
    pub fn get_tab_at_row(&self, row: usize) -> (r: Option<usize>)
        ensures
            click_view(r) == tab_clicked(self@, row as int),
    {
        let top: usize = self.render.padding_top;
        let count: usize = self.tabs.len();
        if count == 0 || row < top {
            return None;
        }
        let available: usize = rest_of(self.last_rows, top as u128);
        let active: usize = rest_of(self.active_tab_idx, 1);
        let (start, end, above, _below) = calculate_visible_range(count, available, active);
        if above > 0 && row == top {
            return Some(rest_of(start, 1) + 1);
        }
        let k: usize = row - top - if above > 0 {
            1
        } else {
            0
        };
        if k < end - start {
            let index: usize = start + k;
            if index < count {
                return Some(index + 1);
            }
            return None;
        }
        Some(
            if end < count {
                end + 1
            } else {
                count
            },
        )
    }
}

// ---------------------------------------------------------------------------------------
// Laws
// ---------------------------------------------------------------------------------------

/// No line is wider than the list: what does not fit beside the border is cut off at the right
/// edge.
pub proof fn lines_are_cut_at_the_right_edge(render: RenderView, content: Seq<Run>, cols: nat)
    ensures
        glyphs(line_content(render, content, cols)).is_prefix_of(glyphs(content)),
        glyphs_columns(glyphs(line_content(render, content, cols))) <= inner_width(render, cols),
        inner_width(render, cols) <= cols,
{
    clipping_the_end_keeps_a_beginning(content, inner_width(render, cols));
}

proof fn lemma_tab_lines(s: StateView, start: int, end: int, cols: nat)
    requires
        0 <= start <= end <= s.tabs.len(),
    ensures
        tab_lines(s, start, end, cols).len() == end - start,
    decreases end - start,
{
    if start < end {
        lemma_tab_lines(s, start, end - 1, cols);
    }
}

/// The list has a line for each row, as long as there is a row below the space at the top.
pub proof fn the_list_fills_its_rows(s: StateView, rows: nat, cols: nat)
    requires
        active_index(s) < s.tabs.len(),
        s.render.padding_top < rows,
    ensures
        list_lines(s, rows, cols).len() == rows,
{
    let top = s.render.padding_top as nat;
    let count = s.tabs.len() as int;
    let r = shown_range(count, rest(rows, top) as int, active_index(s));
    every_tab_is_shown_or_counted(count, rest(rows, top) as int, active_index(s));
    if count <= rest(rows, top) || 3 <= rest(rows, top) {
        the_active_tab_is_shown(count, rest(rows, top) as int, active_index(s));
    }
    lemma_tab_lines(s, r.start, r.end, cols);
}

/// A click on the line of a tab asks for that tab.
pub proof fn clicks_hit_the_tab_that_is_shown(s: StateView, index: int)
    requires
        active_index(s) < s.tabs.len(),
        ({
            let top = s.render.padding_top as nat;
            let r = shown_range(
                s.tabs.len() as int,
                rest(s.last_rows as nat, top) as int,
                active_index(s),
            );
            r.start <= index < r.end
        }),
    ensures
        ({
            let top = s.render.padding_top as nat;
            let r = shown_range(
                s.tabs.len() as int,
                rest(s.last_rows as nat, top) as int,
                active_index(s),
            );
            let row = top + (if r.above > 0 {
                1int
            } else {
                0
            }) + (index - r.start);
            tab_clicked(s, row) == Some(index + 1)
        }),
{
    let top = s.render.padding_top as nat;
    every_tab_is_shown_or_counted(
        s.tabs.len() as int,
        rest(s.last_rows as nat, top) as int,
        active_index(s),
    );
}

proof fn lemma_line_of_tab(s: StateView, start: int, end: int, cols: nat, k: int)
    requires
        0 <= start <= k < end <= s.tabs.len(),
    ensures
        tab_lines(s, start, end, cols)[k - start] == line_text(
            s.render,
            tab_content(s, s.tabs[k], cols),
            cols,
            s.tabs[k].active,
        ),
    decreases end,
{
    lemma_tab_lines(s, start, end, cols);
    lemma_tab_lines(s, start, end - 1, cols);
    if k < end - 1 {
        lemma_line_of_tab(s, start, end - 1, cols, k);
    }
}

/// Five lists of lines one behind the other.
proof fn lemma_lines_in_order(
    a: Seq<Seq<char>>,
    b: Seq<Seq<char>>,
    c: Seq<Seq<char>>,
    d: Seq<Seq<char>>,
    e: Seq<Seq<char>>,
)
    ensures
        ({
            let all = a + b + c + d + e;
            &&& all.len() == a.len() + b.len() + c.len() + d.len() + e.len()
            &&& forall|i: int| 0 <= i < a.len() ==> #[trigger] all[i] == a[i]
            &&& forall|i: int| 0 <= i < b.len() ==> all[a.len() + i] == #[trigger] b[i]
            &&& forall|i: int| 0 <= i < c.len() ==> all[a.len() + b.len() + i] == #[trigger] c[i]
            &&& forall|i: int|
                0 <= i < d.len() ==> all[a.len() + b.len() + c.len() + i] == #[trigger] d[i]
            &&& forall|i: int|
                a.len() + b.len() + c.len() + d.len() <= i < all.len() ==> #[trigger] all[i] == e[i
                    - a.len() - b.len() - c.len() - d.len()]
        }),
{
}

/// The list from top to bottom: the empty lines at the top, a line that counts the tabs above if
/// there are any, a line for each tab that is shown with what belongs to that tab, in their
/// order, a line that counts the tabs below if there are any, and empty lines.
pub proof fn every_line_of_the_list_has_its_place(s: StateView, rows: nat, cols: nat)
    requires
        active_index(s) < s.tabs.len(),
        s.render.padding_top < rows,
    ensures
        list_in_order(
            s,
            list_lines(s, rows, cols),
            shown_range(s.tabs.len() as int, rows - s.render.padding_top, active_index(s)),
            rows,
            cols,
        ),
{
    let top = s.render.padding_top as int;
    let count = s.tabs.len() as int;
    let r = shown_range(count, rows - top, active_index(s));
    assert(rest(rows, top as nat) == rows - top);
    every_tab_is_shown_or_counted(count, rows - top, active_index(s));
    the_list_fills_its_rows(s, rows, cols);
    lemma_list_in_order(s, r, rows, cols);
}

/// What a list of lines shows where the tabs from `r.start` to `r.end` are shown.
pub open spec fn list_in_order(
    s: StateView,
    lines: Seq<Seq<char>>,
    r: Shown,
    rows: nat,
    cols: nat,
) -> bool {
    let top = s.render.padding_top as int;
    let first = top + if r.above > 0 {
        1int
    } else {
        0
    };
    let behind = first + (r.end - r.start);
    let last = behind + if r.below > 0 {
        1int
    } else {
        0
    };
    &&& lines.len() == rows
    &&& forall|i: int|
        0 <= i < top || last <= i < rows ==> #[trigger] lines[i] == empty_line_text(s.render, cols)
    &&& r.above > 0 ==> lines[top] == line_text(
        s.render,
        styled_runs(replaced(s.render.overflow_above, "{count}"@, decimal(r.above as nat))),
        cols,
        false,
    )
    &&& forall|k: int|
        r.start <= k < r.end ==> lines[first + k - r.start] == line_text(
            s.render,
            tab_content(s, #[trigger] s.tabs[k], cols),
            cols,
            s.tabs[k].active,
        )
    &&& r.below > 0 ==> lines[behind] == line_text(
        s.render,
        styled_runs(replaced(s.render.overflow_below, "{count}"@, decimal(r.below as nat))),
        cols,
        false,
    )
}

proof fn lemma_list_in_order(s: StateView, r: Shown, rows: nat, cols: nat)
    requires
        0 <= r.start <= r.end <= s.tabs.len(),
        ({
            let top = Seq::new(
                s.render.padding_top as nat,
                |i: int| empty_line_text(s.render, cols),
            );
            let above = overflow_lines(s.render, s.render.overflow_above, r.above, cols);
            let below = overflow_lines(s.render, s.render.overflow_below, r.below, cols);
            let tabs = tab_lines(s, r.start, r.end, cols);
            lines_padded(top + above + tabs + below, s.render, rows, cols).len() == rows
        }),
    ensures
        ({
            let top = Seq::new(
                s.render.padding_top as nat,
                |i: int| empty_line_text(s.render, cols),
            );
            let above = overflow_lines(s.render, s.render.overflow_above, r.above, cols);
            let below = overflow_lines(s.render, s.render.overflow_below, r.below, cols);
            let tabs = tab_lines(s, r.start, r.end, cols);
            list_in_order(
                s,
                lines_padded(top + above + tabs + below, s.render, rows, cols),
                r,
                rows,
                cols,
            )
        }),
{
    let top = Seq::new(s.render.padding_top as nat, |i: int| empty_line_text(s.render, cols));
    let above = overflow_lines(s.render, s.render.overflow_above, r.above, cols);
    let below = overflow_lines(s.render, s.render.overflow_below, r.below, cols);
    let tabs = tab_lines(s, r.start, r.end, cols);
    let shown = top + above + tabs + below;
    let more = Seq::new(rest(rows, shown.len()), |i: int| empty_line_text(s.render, cols));
    let lines = lines_padded(shown, s.render, rows, cols);
    lemma_tab_lines(s, r.start, r.end, cols);
    lemma_lines_in_order(top, above, tabs, below, more);
    assert(lines == top + above + tabs + below + more);
    let first = top.len() + above.len();
    assert forall|k: int| r.start <= k < r.end implies lines[first + k - r.start] == line_text(
        s.render,
        tab_content(s, #[trigger] s.tabs[k], cols),
        cols,
        s.tabs[k].active,
    ) by {
        lemma_line_of_tab(s, r.start, r.end, cols, k);
        let j = k - r.start;
        assert(lines[first + j] == tabs[j]);
    }
    if r.above > 0 {
        assert(lines[top.len() as int] == above[0]);
    }
    if r.below > 0 {
        assert(lines[(first + tabs.len()) as int] == below[0]);
    }
}

/// A click leads to a tab that there is, or nowhere: nowhere only above the list, or where there
/// are no tabs. A click on the line that counts the tabs above leads to the last of those, and a
/// click below the tabs that are shown to the first of those below, or to the last tab of all.
pub proof fn clicks_lead_to_tabs(s: StateView, row: int)
    requires
        active_index(s) < s.tabs.len(),
        0 <= row,
    ensures
        ({
            let top = s.render.padding_top as int;
            let count = s.tabs.len() as int;
            let r = shown_range(
                count,
                rest(s.last_rows as nat, top as nat) as int,
                active_index(s),
            );
            let behind = top + (if r.above > 0 {
                1int
            } else {
                0
            }) + (r.end - r.start);
            &&& tab_clicked(s, row) is None <==> row < top
            &&& tab_clicked(s, row) matches Some(index) ==> 1 <= index <= count
            &&& 0 < r.start && row == top ==> tab_clicked(s, row) == Some(r.start)
            &&& row >= behind && row > top && r.end < count ==> tab_clicked(s, row) == Some(
                r.end + 1,
            )
            &&& row >= behind && row >= top && r.end == count && !(r.above > 0 && row == top)
                ==> tab_clicked(s, row) == Some(count)
        }),
{
    let top = s.render.padding_top as int;
    every_tab_is_shown_or_counted(
        s.tabs.len() as int,
        rest(s.last_rows as nat, top as nat) as int,
        active_index(s),
    );
}

/// Without tabs a click leads nowhere.
pub proof fn clicks_without_tabs_lead_nowhere(s: StateView, row: int)
    requires
        s.tabs.len() == 0,
    ensures
        tab_clicked(s, row) is None,
{
}

/// Every occurrence of a pattern is replaced, and nothing else: what stands before the first
/// character of the pattern stays, the pattern gives way, and what follows is treated alike.
pub proof fn patterns_are_replaced(
    before: Seq<char>,
    pattern: Seq<char>,
    behind: Seq<char>,
    with: Seq<char>,
)
    requires
        pattern.len() > 0,
        !before.contains(pattern[0]),
    ensures
        replaced(before + pattern + behind, pattern, with) == before + with + replaced(
            behind,
            pattern,
            with,
        ),
        replaced(before, pattern, with) == before,
    decreases before.len(),
{
    let all = before + pattern + behind;
    if before.len() == 0 {
        assert(all.take(pattern.len() as int) =~= pattern);
        assert(all.skip(pattern.len() as int) =~= behind);
        assert(before + with =~= with);
    } else {
        let later = before.drop_first();
        assert(before.contains(before[0]));
        if later.contains(pattern[0]) {
            let i = choose|i: int| 0 <= i < later.len() && later[i] == pattern[0];
            assert(before[i + 1] == pattern[0]);
        }
        patterns_are_replaced(later, pattern, behind, with);
        if begins_with(all, pattern) {
            assert(all.take(pattern.len() as int)[0] == pattern[0]);
        }
        if begins_with(before, pattern) {
            assert(before.take(pattern.len() as int)[0] == pattern[0]);
        }
        assert(all.drop_first() =~= later + pattern + behind);
        assert(replaced(all, pattern, with) =~= before + with + replaced(behind, pattern, with));
        assert(replaced(before, pattern, with) =~= before);
    }
}

/// A line that counts tabs shows their number where its format says so.
pub proof fn counts_are_shown_where_the_format_says(
    before: Seq<char>,
    behind: Seq<char>,
    count: nat,
)
    requires
        !before.contains('{'),
        !behind.contains('{'),
    ensures
        replaced(before + "{count}"@ + behind, "{count}"@, decimal(count)) == before + decimal(
            count,
        ) + behind,
{
    reveal_strlit("{count}");
    assert("{count}"@[0] == '{');
    patterns_are_replaced(before, "{count}"@, behind, decimal(count));
    patterns_are_replaced(behind, "{count}"@, Seq::empty(), decimal(count));
}

/// The title that a tab is shown with is that of the first focused terminal pane, without the
/// blanks around it, unless it is empty or one that the terminal gave; another pane's title is
/// not shown in its place, and that of a plugin never.
pub proof fn titles_are_those_of_the_focused_terminal(panes: Seq<PaneView>, i: int)
    requires
        0 <= i < panes.len(),
        panes[i].focused && !panes[i].plugin,
        forall|j: int| 0 <= j < i ==> !((#[trigger] panes[j]).focused && !panes[j].plugin),
    ensures
        ({
            let title = trimmed(panes[i].title);
            let given = title.len() == 0 || begins_with(title, "Pane #"@) || begins_with(
                title,
                "Tab #"@,
            );
            focused_title(panes) == if given {
                None
            } else {
                Some(title)
            }
        }),
    decreases i,
{
    if i > 0 {
        let later = panes.drop_first();
        assert(!(panes[0].focused && !panes[0].plugin));
        assert forall|j: int| 0 <= j < i - 1 implies !((#[trigger] later[j]).focused
            && !later[j].plugin) by {
            assert(later[j] == panes[j + 1]);
        }
        titles_are_those_of_the_focused_terminal(later, i - 1);
    }
}

/// Without a focused terminal pane there is no title.
pub proof fn there_is_no_title_without_a_focused_terminal(panes: Seq<PaneView>)
    requires
        forall|j: int|
            0 <= j < panes.len() ==> !((#[trigger] panes[j]).focused && !panes[j].plugin),
    ensures
        focused_title(panes) is None,
    decreases panes.len(),
{
    if panes.len() > 0 {
        let later = panes.drop_first();
        assert(!(panes[0].focused && !panes[0].plugin));
        assert forall|j: int| 0 <= j < later.len() implies !((#[trigger] later[j]).focused
            && !later[j].plugin) by {
            assert(later[j] == panes[j + 1]);
        }
        there_is_no_title_without_a_focused_terminal(later);
    }
}

/// A tab has a mark for each thing that holds of it, and none for what does not: what fills the
/// screen comes first, then what is in step with others, then what is active.
pub proof fn marks_say_what_holds_of_a_tab(render: RenderView, tab: TabView)
    ensures
        ({
            let marks = indicators(render, tab);
            let others = TabView { active: false, ..tab };
            &&& tab.active ==> marks == indicators(render, others) + render.active
            &&& !tab.active ==> marks == indicators(render, others)
            &&& !tab.active && tab.sync ==> marks == indicators(
                render,
                TabView { sync: false, ..tab },
            ) + render.sync
            &&& !tab.active && !tab.sync && tab.fullscreen ==> marks == render.fullscreen
            &&& !tab.active && !tab.sync && !tab.fullscreen ==> marks == Seq::<char>::empty()
        }),
{
    let marks = indicators(render, tab);
    let others = TabView { active: false, ..tab };
    assert(tab.active ==> marks =~= indicators(render, others) + render.active);
    assert(!tab.active && tab.sync ==> marks =~= indicators(render, TabView { sync: false, ..tab })
        + render.sync);
    assert(!tab.active && !tab.sync && tab.fullscreen ==> marks =~= render.fullscreen);
    assert(!tab.active && !tab.sync && !tab.fullscreen ==> marks =~= Seq::<char>::empty());
}

/// The columns of a list have what the border leaves of its width, and what all marks together
/// leave of that with a blank before them.
pub proof fn border_and_marks_stand_beside_the_columns(render: RenderView, cols: nat)
    ensures
        ({
            let border = runs_width(styled_runs(render.border));
            let marks = runs_width(styled_runs(render.fullscreen + render.sync + render.active));
            &&& border <= cols ==> inner_width(render, cols) + border == cols
            &&& border >= cols ==> inner_width(render, cols) == 0
            &&& marks > 0 && border + marks < cols ==> cell_space(render, cols) + 1 + marks + border
                == cols
            &&& marks == 0 && border <= cols ==> cell_space(render, cols) + border == cols
            &&& border + marks >= cols ==> cell_space(render, cols) == 0 || marks == 0
        }),
{
}

/// A tab with a row shows its columns and behind them, after a blank, its marks, as far as the
/// width of the list goes; all of it if it takes less than that.
pub proof fn marks_stand_behind_the_columns(s: StateView, tab: TabView, cols: nat, id: Seq<char>)
    requires
        s.columns is Some,
        tab_at(s.tabs, tab.position) == Some(tab),
        shown_id(s, tab) == Some(id),
        s.rows.contains_key(id),
    ensures
        ({
            let columns = s.columns->0;
            let marks = indicators(s.render, tab);
            let content = glyphs(
                columns_content(
                    columns,
                    s.rows[id].cells,
                    shown_widths(s, columns, cols),
                    columns.len() as int,
                ),
            );
            let all = if marks.len() > 0 {
                content + paint(" "@, plain_style()) + glyphs(styled_runs(marks))
            } else {
                content
            };
            let shown = glyphs(tab_content(s, tab, cols));
            &&& shown.is_prefix_of(all)
            &&& glyphs_columns(shown) <= inner_width(s.render, cols)
            &&& glyphs_columns(all) < inner_width(s.render, cols) ==> shown == all
        }),
{
    let columns = s.columns->0;
    let marks = indicators(s.render, tab);
    let runs = columns_content(
        columns,
        s.rows[id].cells,
        shown_widths(s, columns, cols),
        columns.len() as int,
    );
    let spaced = push_run(runs, " "@, plain_style());
    let whole = with_indicators(runs, s.render, tab, true);
    let edge = inner_width(s.render, cols);
    pushing_adds_glyphs(runs, " "@, plain_style());
    extending_joins_glyphs(spaced, styled_runs(marks));
    clipping_the_end_keeps_a_beginning(whole, edge);
    let g = glyphs(whole);
    lemma_head_fit(g, edge);
    gathering_keeps_glyphs(g.take(head_fit(g, edge) as int));
    if glyphs_columns(g) < edge {
        let k = head_fit(g, edge) as int;
        if k < g.len() {
            assert(g =~= g.take(k) + g.skip(k));
            lemma_columns_join(g.take(k), g.skip(k));
            assert(g =~= g.take(k + 1) + g.skip(k + 1));
            lemma_columns_join(g.take(k + 1), g.skip(k + 1));
        }
        assert(g.take(g.len() as int) =~= g);
    }
}

/// A tab without a row shows the name that its user chose, and its marks behind it. A name that
/// nobody chose gives way to the title of its focused terminal, or else to its position.
pub proof fn tabs_without_a_row_show_their_name(s: StateView, tab: TabView, cols: nat)
    requires
        s.columns is Some,
        tab_at(s.tabs, tab.position) == Some(tab),
        shown_id(s, tab) matches Some(id) ==> !s.rows.contains_key(id),
    ensures
        ({
            let title = focused_title(panes_at(s.panes, tab.position));
            let marks = indicators(s.render, tab);
            let name = if !nobodys_name(tab.name) {
                tab.name
            } else if title is Some {
                title->0
            } else {
                "Tab "@ + decimal(tab.position as nat)
            };
            let painted = paint(name, plain_style());
            glyphs(tab_content(s, tab, cols)) == if marks.len() == 0 {
                painted
            } else if name.len() == 0 {
                painted + glyphs(styled_runs(marks))
            } else {
                painted + paint(" "@, plain_style()) + glyphs(styled_runs(marks))
            }
        }),
{
    let name = fallback_name(s, tab);
    let marks = indicators(s.render, tab);
    let alone = push_run(Seq::empty(), name, plain_style());
    let spaced = push_run(alone, " "@, plain_style());
    pushing_adds_glyphs(Seq::empty(), name, plain_style());
    assert(glyphs(Seq::<Run>::empty()) + paint(name, plain_style()) =~= paint(
        name,
        plain_style(),
    ));
    pushing_adds_glyphs(alone, " "@, plain_style());
    extending_joins_glyphs(alone, styled_runs(marks));
    extending_joins_glyphs(spaced, styled_runs(marks));
}

/// Turning a style round twice gives it back, but for the wish to fill the line: the two colours
/// change places, and all else stays.
pub proof fn turned_styles_turn_back(style: InlineStyle)
    ensures
        inverse(style).fg == style.bg,
        inverse(inverse(style)) == (InlineStyle { fill: false, ..style }),
{
}

/// The columns of a list with the gaps between them, the marks with the blank before them and the
/// border fit into its width, wherever the columns that do not share the room do: and they fill
/// it where the content of the others does not fit.
pub proof fn columns_marks_and_border_fit_the_list(s: StateView, cols: nat)
    requires
        s.columns is Some,
        s.columns->0.len() > 0,
        s.widths.len() == s.columns->0.len(),
    ensures
        ({
            let columns = s.columns->0;
            let n = columns.len() as int;
            let widths = shown_widths(s, columns, cols);
            let naturals = natural_widths(s.widths);
            let border = runs_width(styled_runs(s.render.border));
            let marks = runs_width(
                styled_runs(s.render.fullscreen + s.render.sync + s.render.active),
            );
            let beside = border + marks + if marks > 0 {
                1nat
            } else {
                0
            };
            let taken = others_total(rules(columns), widths, n) + (n - 1) + beside;
            let content = width_total(naturals, n) - others_total(rules(columns), naturals, n);
            taken <= cols && (forall|i: int, weight: int|
                0 <= i < n && #[trigger] flows_by(rules(columns)[i], weight) ==> (cols - taken)
                    * weight < HIGH) ==> {
                &&& width_total(widths, n) + (n - 1) + beside <= cols
                &&& content > cols - taken ==> width_total(widths, n) + (n - 1) + beside == cols
            }
        }),
{
    let columns = s.columns->0;
    let n = columns.len() as int;
    let space = cell_space(s.render, cols);
    columns_and_gaps_fit_the_list(rules(columns), natural_widths(s.widths), space, 1);
    let widths = shown_widths(s, columns, cols);
    let taken = others_total(rules(columns), widths, n) + 1 * (n - 1);
    assert(1 * (n - 1) == n - 1);
}

/// Each run of a filled line stands behind the escape sequences of its style turned round, if that
/// is not plain.
proof fn lemma_filled_runs(runs: Seq<Run>, i: int)
    requires
        0 <= i < runs.len(),
    ensures
        inverse(runs[i].1) != plain_style() ==> holds_part(
            filled(runs),
            style_code(inverse(runs[i].1)) + runs[i].0,
        ),
        holds_part(filled(runs), runs[i].0),
    decreases runs.len(),
{
    let front = runs.drop_last();
    let (text, style) = runs.last();
    let part = style_code(inverse(style)) + text;
    let none = Seq::<char>::empty();
    if i == runs.len() - 1 {
        let lead = filled(front) + "\x1b[0m\x1b[7m"@;
        if inverse(style) != plain_style() {
            assert(filled(runs) =~= lead + part + none);
            assert(filled(runs) =~= (lead + style_code(inverse(style))) + text + none);
        } else {
            assert(filled(runs) =~= filled(front) + text + none);
        }
    } else {
        lemma_filled_runs(front, i);
        assert(front[i] == runs[i]);
        let code = if inverse(style) != plain_style() {
            "\x1b[0m\x1b[7m"@ + style_code(inverse(style))
        } else {
            Seq::<char>::empty()
        };
        let more = code + text;
        let own = runs[i].0;
        let (a, b) = choose|a: Seq<char>, b: Seq<char>| filled(front) == #[trigger] (a + own + b);
        assert(filled(runs) =~= a + own + (b + more));
        if inverse(runs[i].1) != plain_style() {
            let styled = style_code(inverse(runs[i].1)) + own;
            let (c, d) = choose|c: Seq<char>, d: Seq<char>|
                filled(front) == #[trigger] (c + styled + d);
            assert(filled(runs) =~= c + styled + (d + more));
        }
    }
}

/// A line is shown in another way where its tab is active just if any part of it that is shown
/// wishes to fill the line. It then begins with the escape sequence that turns the colours round,
/// shows every part in its style turned round, and ends, before the border, in the one that takes
/// this back.
pub proof fn active_lines_are_filled_if_they_wish(render: RenderView, content: Seq<Run>, cols: nat)
    ensures
        ({
            let shown = line_content(render, content, cols);
            let active = line_text(render, content, cols, true);
            let other = line_text(render, content, cols, false);
            let wishes = exists|i: int| 0 <= i < shown.len() && (#[trigger] shown[i]).1.fill;
            &&& !wishes ==> active == other
            &&& wishes ==> {
                &&& "\x1b[7m"@.is_prefix_of(active)
                &&& ("\x1b[0m"@ + border_text(render)).is_suffix_of(active)
                &&& forall|i: int|
                    0 <= i < shown.len() && inverse((#[trigger] shown[i]).1) != plain_style()
                        ==> holds_part(active, style_code(inverse(shown[i].1)) + shown[i].0)
            }
        }),
{
    let shown = line_content(render, content, cols);
    let active = line_text(render, content, cols, true);
    let padding = line_padding(render, content, cols);
    let start = "\x1b[7m"@;
    let end = "\x1b[0m"@ + border_text(render);
    if wants_fill(shown) {
        assert(active =~= start + (filled(shown) + padding + end));
        assert(active.take(start.len() as int) =~= start);
        assert(active =~= (start + filled(shown) + padding) + end);
        assert(active.skip(active.len() - end.len()) =~= end);
        assert forall|i: int|
            0 <= i < shown.len() && inverse((#[trigger] shown[i]).1)
                != plain_style() implies holds_part(
            active,
            style_code(inverse(shown[i].1)) + shown[i].0,
        ) by {
            lemma_filled_runs(shown, i);
            let part = style_code(inverse(shown[i].1)) + shown[i].0;
            let (a, b) = choose|a: Seq<char>, b: Seq<char>|
                filled(shown) == #[trigger] (a + part + b);
            assert(active =~= (start + a) + part + (b + padding + end));
        }
    }
}

/// Before the user has granted what the plugin asked for, the list shows the same whatever the
/// tabs, the rows and the errors are; after that, an error is shown in its place, the same
/// whatever the tabs and rows are. Without an error and without tabs nothing is shown.
pub proof fn messages_come_before_the_list(s: StateView, other: StateView, rows: nat, cols: nat)
    requires
        s.render == other.render,
        s.granted == other.granted,
    ensures
        !s.granted ==> shown_text(s, rows, cols) == shown_text(other, rows, cols),
        s.granted && s.load_error is Some && other.load_error == s.load_error ==> shown_text(
            s,
            rows,
            cols,
        ) == shown_text(other, rows, cols),
        s.granted && s.load_error is None && s.tabs.len() == 0 ==> shown_text(s, rows, cols)
            == Seq::<char>::empty(),
{
}

} // verus!
