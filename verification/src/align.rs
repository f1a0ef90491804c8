//! Where the columns of the list stand: at the same place for every tab.
use vstd::prelude::*;

use crate::escapes::{
    free_of_escapes, lemma_resets_vanish, lemma_style_vanishes, lemma_text_stays,
    styled_text_without_escapes_is_the_plain_text, without_escapes,
};
use crate::identity::shown_id;
use crate::layout::{fills_at_most, fitted, fitting_keeps_text_narrow, ResizeMode, ResizeSpec};
use crate::markup::{styled_runs, CellView};
use crate::render::{
    border_text, border_width, cell_runs, cell_space, columns_content, empty_line_text, filled,
    indicators, inner_width, inverse, line_content, line_padding, line_text, natural_widths, rest,
    shown_widths, spaces, tab_content, wants_fill, with_indicators,
};
use crate::schema::{rules, ColumnView};
use crate::state::{tab_at, RenderView, StateView, TabView};
use crate::style::{
    ansi_after, clipped_end, clipping_the_end_keeps_a_beginning, extend_runs,
    extending_joins_glyphs, gathering_keeps_glyphs, glyphs, glyphs_columns, head_fit,
    lemma_columns_join, lemma_head_fit, lemma_painted_columns, measured, narrow_glyphs, paint,
    plain, plain_style, push_run, pushing_adds_glyphs, runs_width, style_code, Glyph, Run,
};
use crate::width::{columns, narrow, text_columns};
use crate::widths::widths_follow_the_rules;

verus! {

// ---------------------------------------------------------------------------------------
// Columns
// ---------------------------------------------------------------------------------------

/// Where a column starts: behind the columns before it, with a space behind each of those.
pub open spec fn column_start(widths: Seq<usize>, n: int) -> nat
    decreases n,
{
    if n <= 0 {
        0
    } else {
        column_start(widths, n - 1) + widths[n - 1] as nat + 1
    }
}

/// A cell as it is shown in its column.
pub open spec fn shown_cell(
    columns: Seq<ColumnView>,
    cells: Seq<Option<CellView>>,
    widths: Seq<usize>,
    i: int,
) -> Seq<Run> {
    fitted(cell_runs(cells, i), columns[i].rule, widths[i] as nat)
}

/// A cell as it is shown in its column, with the spaces behind it.
pub open spec fn padded_cell(
    columns: Seq<ColumnView>,
    cells: Seq<Option<CellView>>,
    widths: Seq<usize>,
    i: int,
) -> Seq<Glyph> {
    let cell = shown_cell(columns, cells, widths, i);
    glyphs(cell) + paint(spaces(rest(widths[i] as nat, runs_width(cell))), plain_style())
}

/// Each of the first `n` cells takes no more than the width of its column.
pub open spec fn cells_fit(
    columns: Seq<ColumnView>,
    cells: Seq<Option<CellView>>,
    widths: Seq<usize>,
    n: int,
) -> bool {
    forall|i: int|
        0 <= i < n ==> fills_at_most(
            #[trigger] shown_cell(columns, cells, widths, i),
            widths[i] as nat,
        )
}

/// Cells that hold nothing but printable ASCII and horizontal ellipses.
pub open spec fn narrow_cells(cells: Seq<Option<CellView>>) -> bool {
    forall|i: int| 0 <= i < cells.len() ==> narrow_glyphs(glyphs(#[trigger] cell_runs(cells, i)))
}

/// Column `i` of a row starts at its place in the content: what stands before it takes the
/// columns up to there. Where the right edge leaves room, the cell follows with its spaces.
pub open spec fn column_stands(
    content: Seq<Glyph>,
    columns: Seq<ColumnView>,
    cells: Seq<Option<CellView>>,
    widths: Seq<usize>,
    i: int,
    edge: nat,
) -> bool {
    let before = glyphs(columns_content(columns, cells, widths, i));
    let cell = padded_cell(columns, cells, widths, i);
    &&& before.is_prefix_of(content)
    &&& glyphs_columns(before) == column_start(widths, i)
    &&& glyphs_columns(cell) == widths[i]
    &&& column_start(widths, i) + widths[i] < edge ==> (before + cell).is_prefix_of(content)
}

/// The cells that are shown for a tab, where it has a row.
pub open spec fn shown_cells(s: StateView, tab: TabView) -> Option<Seq<Option<CellView>>> {
    match tab_at(s.tabs, tab.position) {
        Some(found) => match shown_id(s, found) {
            Some(id) => if s.columns is Some && s.rows.contains_key(id) {
                Some(s.rows[id].cells)
            } else {
                None
            },
            None => None,
        },
        None => None,
    }
}

/// Every column of a tab's row that starts left of the right edge stands at its place, which is
/// the same for all tabs, and the content ends at the right edge.
pub open spec fn lined_up(s: StateView, tab: TabView, cols: nat, content: Seq<Glyph>) -> bool {
    let columns = s.columns->0;
    let widths = shown_widths(s, columns, cols);
    let edge = inner_width(s.render, cols);
    &&& glyphs_columns(content) <= edge
    &&& forall|i: int|
        #![trigger column_start(widths, i)]
        0 <= i < columns.len() && column_start(widths, i) < edge ==> column_stands(
            content,
            columns,
            shown_cells(s, tab)->0,
            widths,
            i,
            edge,
        )
}

// ---------------------------------------------------------------------------------------
// Narrow text stays narrow
// ---------------------------------------------------------------------------------------

/// Spaces are narrow and take a column each.
pub proof fn lemma_spaces(n: nat)
    requires
        columns(' ') == 1,
    ensures
        text_columns(spaces(n)) == n,
        glyphs_columns(paint(spaces(n), plain_style())) == n,
    decreases n,
{
    lemma_painted_columns(spaces(n), plain_style());
    if n > 0 {
        lemma_spaces((n - 1) as nat);
        assert(spaces(n).drop_last() =~= spaces((n - 1) as nat));
    }
}

proof fn lemma_space()
    ensures
        " "@ == spaces(1),
{
    reveal_strlit(" ");
    assert(" "@ =~= spaces(1));
}

/// The content of narrow cells is narrow.
pub proof fn lemma_content_narrow(
    columns: Seq<ColumnView>,
    cells: Seq<Option<CellView>>,
    widths: Seq<usize>,
    n: int,
)
    requires
        narrow_cells(cells),
        0 <= n <= cells.len(),
    ensures
        narrow_glyphs(glyphs(columns_content(columns, cells, widths, n))),
    decreases n,
{
    if n > 0 {
        lemma_content_narrow(columns, cells, widths, n - 1);
        lemma_content_step(columns, cells, widths, n);
        fitting_keeps_text_narrow(
            cell_runs(cells, n - 1),
            columns[n - 1].rule,
            widths[n - 1] as nat,
        );
        lemma_space();
    }
}

/// Content with the marks of its tab is narrow where both are.
pub proof fn lemma_marked_narrow(content: Seq<Run>, render: RenderView, tab: TabView)
    requires
        narrow_glyphs(glyphs(content)),
        narrow_glyphs(glyphs(styled_runs(indicators(render, tab)))),
    ensures
        narrow_glyphs(glyphs(with_indicators(content, render, tab, true))),
{
    pushing_adds_glyphs(content, " "@, plain_style());
    extending_joins_glyphs(
        push_run(content, " "@, plain_style()),
        styled_runs(indicators(render, tab)),
    );
    lemma_space();
}

/// Clipped content is narrow where it was before.
pub proof fn lemma_clipped_narrow(runs: Seq<Run>, room: nat)
    requires
        narrow_glyphs(glyphs(runs)),
    ensures
        narrow_glyphs(glyphs(clipped_end(runs, room))),
{
    clipping_the_end_keeps_a_beginning(runs, room);
}

/// One more column: its cell with the spaces behind it, and the gap before the next.
proof fn lemma_content_step(
    columns: Seq<ColumnView>,
    cells: Seq<Option<CellView>>,
    widths: Seq<usize>,
    n: int,
)
    requires
        0 < n,
    ensures
        glyphs(columns_content(columns, cells, widths, n)) == glyphs(
            columns_content(columns, cells, widths, n - 1),
        ) + padded_cell(columns, cells, widths, n - 1) + (if n < columns.len() {
            paint(spaces(1), plain_style())
        } else {
            Seq::empty()
        }),
{
    let i = n - 1;
    let before = columns_content(columns, cells, widths, i);
    let cell = shown_cell(columns, cells, widths, i);
    let pad = spaces(rest(widths[i] as nat, runs_width(cell)));
    let padded = push_run(extend_runs(before, cell), pad, plain_style());
    extending_joins_glyphs(before, cell);
    pushing_adds_glyphs(extend_runs(before, cell), pad, plain_style());
    pushing_adds_glyphs(padded, " "@, plain_style());
    lemma_space();
    assert(glyphs(before) + glyphs(cell) + paint(pad, plain_style()) =~= glyphs(before)
        + padded_cell(columns, cells, widths, i));
    assert(glyphs(padded) + Seq::<Glyph>::empty() =~= glyphs(padded));
}

// ---------------------------------------------------------------------------------------
// Laws on columns
// ---------------------------------------------------------------------------------------

/// A cell with its spaces takes exactly the width of its column.
pub proof fn a_cell_takes_the_width_of_its_column(
    cols: Seq<ColumnView>,
    cells: Seq<Option<CellView>>,
    widths: Seq<usize>,
    i: int,
)
    requires
        columns(' ') == 1,
        fills_at_most(shown_cell(cols, cells, widths, i), widths[i] as nat),
    ensures
        glyphs_columns(padded_cell(cols, cells, widths, i)) == widths[i],
{
    let cell = shown_cell(cols, cells, widths, i);
    let pad = rest(widths[i] as nat, runs_width(cell));
    lemma_spaces(pad);
    lemma_columns_join(glyphs(cell), paint(spaces(pad), plain_style()));
}

/// The first `n` columns of a row take their widths and a column for each gap, whatever their
/// cells hold.
pub proof fn columns_start_at_the_same_place(
    cols: Seq<ColumnView>,
    cells: Seq<Option<CellView>>,
    widths: Seq<usize>,
    n: int,
)
    requires
        columns(' ') == 1,
        0 <= n <= cols.len(),
        cells_fit(cols, cells, widths, n),
    ensures
        glyphs_columns(glyphs(columns_content(cols, cells, widths, n))) == column_start(widths, n)
            - (if 0 < n && n == cols.len() {
            1int
        } else {
            0
        }),
    decreases n,
{
    if n > 0 {
        let before = glyphs(columns_content(cols, cells, widths, n - 1));
        let cell = padded_cell(cols, cells, widths, n - 1);
        columns_start_at_the_same_place(cols, cells, widths, n - 1);
        assert(fills_at_most(shown_cell(cols, cells, widths, n - 1), widths[n - 1] as nat));
        a_cell_takes_the_width_of_its_column(cols, cells, widths, n - 1);
        lemma_content_step(cols, cells, widths, n);
        lemma_columns_join(before, cell);
        lemma_columns_join(before + cell, paint(spaces(1), plain_style()));
        lemma_spaces(1);
        assert(before + cell + Seq::<Glyph>::empty() =~= before + cell);
    }
}

/// The content of fewer columns is a beginning of the content of more.
proof fn lemma_content_prefix(
    cols: Seq<ColumnView>,
    cells: Seq<Option<CellView>>,
    widths: Seq<usize>,
    k: int,
    n: int,
)
    requires
        0 <= k <= n,
    ensures
        glyphs(columns_content(cols, cells, widths, k)).is_prefix_of(
            glyphs(columns_content(cols, cells, widths, n)),
        ),
        k < n ==> (glyphs(columns_content(cols, cells, widths, k)) + padded_cell(
            cols,
            cells,
            widths,
            k,
        )).is_prefix_of(glyphs(columns_content(cols, cells, widths, n))),
    decreases n,
{
    if k < n {
        lemma_content_prefix(cols, cells, widths, k, n - 1);
        lemma_content_step(cols, cells, widths, n);
    }
}

/// What takes fewer columns than there are is not clipped.
proof fn lemma_front_is_kept(runs: Seq<Run>, front: Seq<Glyph>, room: nat)
    requires
        front.is_prefix_of(glyphs(runs)),
        glyphs_columns(front) < room,
    ensures
        front.is_prefix_of(glyphs(clipped_end(runs, room))),
{
    let g = glyphs(runs);
    let kept = glyphs(clipped_end(runs, room));
    lemma_head_fit(g, room);
    gathering_keeps_glyphs(g.take(head_fit(g, room) as int));
    if kept.len() < front.len() {
        let more = g.take(kept.len() as int + 1);
        let k = kept.len() as int;
        assert(front.take(k) =~= kept);
        assert(front =~= kept + front.skip(k));
        lemma_columns_join(kept, front.skip(k));
        assert(front =~= more + front.skip(k + 1));
        lemma_columns_join(more, front.skip(k + 1));
    }
}

/// In the content of a tab that has a row, each column that starts left of the right edge stands
/// at a place that the tab has no part in: at the widths of the columns before it and their
/// gaps. The content ends at the right edge.
pub proof fn columns_stand_at_their_place(s: StateView, tab: TabView, cols: nat)
    requires
        columns(' ') == 1,
        s.columns is Some,
        shown_cells(s, tab) is Some,
        cells_fit(
            s.columns->0,
            shown_cells(s, tab)->0,
            shown_widths(s, s.columns->0, cols),
            s.columns->0.len() as int,
        ),
    ensures
        lined_up(s, tab, cols, glyphs(tab_content(s, tab, cols))),
{
    let all = s.columns->0;
    let cells = shown_cells(s, tab)->0;
    let widths = shown_widths(s, all, cols);
    let edge = inner_width(s.render, cols);
    let content = columns_content(all, cells, widths, all.len() as int);
    let marked = with_indicators(content, s.render, tab, true);
    let shown = glyphs(tab_content(s, tab, cols));
    assert(tab_content(s, tab, cols) == clipped_end(marked, edge));
    clipping_the_end_keeps_a_beginning(marked, edge);
    pushing_adds_glyphs(content, " "@, plain_style());
    extending_joins_glyphs(
        push_run(content, " "@, plain_style()),
        styled_runs(indicators(s.render, tab)),
    );
    assert(glyphs(content).is_prefix_of(glyphs(marked)));
    assert forall|i: int|
        #![trigger column_start(widths, i)]
        0 <= i < all.len() && column_start(widths, i) < edge implies column_stands(
        shown,
        all,
        cells,
        widths,
        i,
        edge,
    ) by {
        let before = glyphs(columns_content(all, cells, widths, i));
        let cell = padded_cell(all, cells, widths, i);
        lemma_content_prefix(all, cells, widths, i, all.len() as int);
        columns_start_at_the_same_place(all, cells, widths, i);
        assert(fills_at_most(shown_cell(all, cells, widths, i), widths[i] as nat));
        a_cell_takes_the_width_of_its_column(all, cells, widths, i);
        lemma_columns_join(before, cell);
        lemma_front_is_kept(marked, before, edge);
        if column_start(widths, i) + widths[i] < edge {
            lemma_front_is_kept(marked, before + cell, edge);
        }
    }
}

/// The columns of two tabs line up: each column that starts left of the right edge starts behind
/// as many columns in the content of the one as in that of the other, and takes as many.
pub proof fn columns_of_all_tabs_line_up(s: StateView, a: TabView, b: TabView, cols: nat, i: int)
    requires
        columns(' ') == 1,
        s.columns is Some,
        shown_cells(s, a) is Some,
        shown_cells(s, b) is Some,
        cells_fit(
            s.columns->0,
            shown_cells(s, a)->0,
            shown_widths(s, s.columns->0, cols),
            s.columns->0.len() as int,
        ),
        cells_fit(
            s.columns->0,
            shown_cells(s, b)->0,
            shown_widths(s, s.columns->0, cols),
            s.columns->0.len() as int,
        ),
        0 <= i < s.columns->0.len(),
        column_start(shown_widths(s, s.columns->0, cols), i) < inner_width(s.render, cols),
    ensures
        ({
            let all = s.columns->0;
            let widths = shown_widths(s, all, cols);
            let edge = inner_width(s.render, cols);
            let before_a = glyphs(columns_content(all, shown_cells(s, a)->0, widths, i));
            let before_b = glyphs(columns_content(all, shown_cells(s, b)->0, widths, i));
            let cell_a = padded_cell(all, shown_cells(s, a)->0, widths, i);
            let cell_b = padded_cell(all, shown_cells(s, b)->0, widths, i);
            let shown_a = glyphs(tab_content(s, a, cols));
            let shown_b = glyphs(tab_content(s, b, cols));
            &&& before_a.is_prefix_of(shown_a)
            &&& before_b.is_prefix_of(shown_b)
            &&& glyphs_columns(before_a) == glyphs_columns(before_b)
            &&& glyphs_columns(cell_a) == glyphs_columns(cell_b)
            &&& column_start(widths, i) + widths[i] < edge ==> (before_a + cell_a).is_prefix_of(
                shown_a,
            ) && (before_b + cell_b).is_prefix_of(shown_b)
            &&& glyphs_columns(shown_a) <= edge
            &&& glyphs_columns(shown_b) <= edge
        }),
{
    columns_stand_at_their_place(s, a, cols);
    columns_stand_at_their_place(s, b, cols);
    assert(column_start(shown_widths(s, s.columns->0, cols), i) < inner_width(s.render, cols));
}

/// A column of a fixed width takes exactly that many columns in every row.
pub proof fn fixed_columns_take_their_width(
    s: StateView,
    cols: nat,
    cells: Seq<Option<CellView>>,
    i: int,
    n: usize,
)
    requires
        columns(' ') == 1,
        s.columns is Some,
        s.widths.len() == s.columns->0.len(),
        0 <= i < s.columns->0.len(),
        s.columns->0[i].rule matches ResizeSpec::Truncate { mode, .. } && mode
            == ResizeMode::Fixed(n),
        fills_at_most(
            shown_cell(s.columns->0, cells, shown_widths(s, s.columns->0, cols), i),
            n as nat,
        ),
    ensures
        shown_widths(s, s.columns->0, cols)[i] == n,
        glyphs_columns(
            padded_cell(s.columns->0, cells, shown_widths(s, s.columns->0, cols), i),
        ) == n,
{
    let all = s.columns->0;
    widths_follow_the_rules(
        rules(all),
        natural_widths(s.widths),
        cell_space(s.render, cols),
        1,
    );
    assert(rules(all)[i] == all[i].rule);
    a_cell_takes_the_width_of_its_column(all, cells, shown_widths(s, all, cols), i);
}

// ---------------------------------------------------------------------------------------
// Lines
// ---------------------------------------------------------------------------------------

/// What a line shows: its content, the spaces behind it, and the border.
pub open spec fn line_shows(render: RenderView, content: Seq<Run>, cols: nat) -> Seq<char> {
    plain(line_content(render, content, cols)) + line_padding(render, content, cols)
        + border_shows(render)
}

/// What the border shows.
pub open spec fn border_shows(render: RenderView) -> Seq<char> {
    if border_width(render) > 0 {
        plain(styled_runs(render.border))
    } else {
        Seq::empty()
    }
}

proof fn lemma_text_columns_join(a: Seq<char>, b: Seq<char>)
    ensures
        text_columns(a + b) == text_columns(a) + text_columns(b),
    decreases b.len(),
{
    if b.len() == 0 {
        assert(a + b =~= a);
    } else {
        lemma_text_columns_join(a, b.drop_last());
        assert((a + b).drop_last() =~= a + b.drop_last());
    }
}

/// The text of runs takes the columns of their characters.
proof fn lemma_plain_columns(runs: Seq<Run>)
    ensures
        text_columns(plain(runs)) == glyphs_columns(glyphs(runs)),
    decreases runs.len(),
{
    if runs.len() > 0 {
        lemma_plain_columns(runs.drop_last());
        lemma_text_columns_join(plain(runs.drop_last()), runs.last().0);
        lemma_columns_join(glyphs(runs.drop_last()), paint(runs.last().0, runs.last().1));
        lemma_painted_columns(runs.last().0, runs.last().1);
    }
}

/// Narrow runs hold no escape character.
pub proof fn lemma_narrow_is_free_of_escapes(runs: Seq<Run>)
    requires
        narrow_glyphs(glyphs(runs)),
    ensures
        free_of_escapes(runs),
    decreases runs.len(),
{
    if runs.len() > 0 {
        let before = glyphs(runs.drop_last());
        let text = runs.last().0;
        assert forall|i: int| 0 <= i < before.len() implies narrow((#[trigger] before[i]).0) by {
            assert(glyphs(runs)[i] == before[i]);
        }
        lemma_narrow_is_free_of_escapes(runs.drop_last());
        if text.contains('\x1b') {
            let i = text.index_of('\x1b');
            assert(glyphs(runs)[before.len() + i].0 == text[i]);
        }
        assert forall|i: int| 0 <= i < runs.len() implies !(#[trigger] runs[i]).0.contains(
            '\x1b',
        ) by {
            if i < runs.len() - 1 {
                assert(runs.drop_last()[i] == runs[i]);
            }
        }
    }
}

proof fn lemma_filled_then(runs: Seq<Run>, behind: Seq<char>)
    requires
        free_of_escapes(runs),
    ensures
        without_escapes(filled(runs) + behind) == plain(runs) + without_escapes(behind),
    decreases runs.len(),
{
    if runs.len() == 0 {
        assert(filled(runs) + behind =~= behind);
        assert(plain(runs) + without_escapes(behind) =~= without_escapes(behind));
    } else {
        let front = runs.drop_last();
        let (text, style) = runs.last();
        let code = if inverse(style) != plain_style() {
            "\x1b[0m\x1b[7m"@ + style_code(inverse(style))
        } else {
            Seq::empty()
        };
        assert(runs[runs.len() - 1].0 == text);
        assert forall|i: int| 0 <= i < front.len() implies !(#[trigger] front[i]).0.contains(
            '\x1b',
        ) by {
            assert(front[i] == runs[i]);
        }
        lemma_filled_then(front, code + (text + behind));
        assert(filled(runs) + behind =~= filled(front) + (code + (text + behind)));
        lemma_text_stays(text, behind);
        lemma_resets_vanish();
        lemma_style_vanishes(inverse(style));
        if inverse(style) != plain_style() {
            assert(code + (text + behind) =~= "\x1b[0m\x1b[7m"@ + (style_code(inverse(style)) + (
            text + behind)));
        } else {
            assert(code + (text + behind) =~= text + behind);
        }
        assert(plain(front) + (text + without_escapes(behind)) =~= plain(runs) + without_escapes(
            behind,
        ));
    }
}

proof fn lemma_border_shows(render: RenderView)
    requires
        free_of_escapes(styled_runs(render.border)),
    ensures
        without_escapes(border_text(render)) == border_shows(render),
{
    styled_text_without_escapes_is_the_plain_text(
        styled_runs(render.border),
        plain_style(),
        Seq::empty(),
    );
}

/// A line with its escape sequences taken out is the content that fits, the spaces behind it and
/// the border.
pub proof fn lines_show_content_and_border(
    render: RenderView,
    content: Seq<Run>,
    cols: nat,
    selected: bool,
)
    requires
        free_of_escapes(line_content(render, content, cols)),
        free_of_escapes(styled_runs(render.border)),
    ensures
        without_escapes(line_text(render, content, cols, selected)) == line_shows(
            render,
            content,
            cols,
        ),
{
    let shown = line_content(render, content, cols);
    let pad = line_padding(render, content, cols);
    let border = border_text(render);
    lemma_border_shows(render);
    assert(!pad.contains('\x1b'));
    if selected && wants_fill(shown) {
        let behind = pad + ("\x1b[0m"@ + border);
        lemma_resets_vanish();
        lemma_filled_then(shown, behind);
        lemma_text_stays(pad, "\x1b[0m"@ + border);
        assert(line_text(render, content, cols, selected) =~= "\x1b[7m"@ + (filled(shown) + behind));
    } else {
        styled_text_without_escapes_is_the_plain_text(shown, plain_style(), pad + border);
        lemma_text_stays(pad, border);
        assert(line_text(render, content, cols, selected) =~= ansi_after(shown, plain_style()) + (pad
            + border));
    }
    assert(plain(shown) + (pad + border_shows(render)) =~= line_shows(render, content, cols));
}

/// Content, spaces and border of a line together take exactly the columns of the list, as long
/// as the border fits.
pub proof fn lines_take_the_whole_width(render: RenderView, content: Seq<Run>, cols: nat)
    requires
        columns(' ') == 1,
        measured(line_content(render, content, cols)),
        measured(styled_runs(render.border)),
        border_width(render) <= cols,
    ensures
        text_columns(line_shows(render, content, cols)) == cols,
{
    let shown = line_content(render, content, cols);
    let pad = line_padding(render, content, cols);
    let inner = inner_width(render, cols);
    clipping_the_end_keeps_a_beginning(content, inner);
    lemma_plain_columns(shown);
    lemma_plain_columns(styled_runs(render.border));
    lemma_spaces(rest(inner, runs_width(shown)));
    lemma_text_columns_join(plain(shown), pad);
    lemma_text_columns_join(plain(shown) + pad, border_shows(render));
}

/// A line with nothing in it takes exactly the columns of the list, as long as the border fits.
pub proof fn empty_lines_take_the_whole_width(render: RenderView, cols: nat)
    requires
        columns(' ') == 1,
        measured(styled_runs(render.border)),
        free_of_escapes(styled_runs(render.border)),
        border_width(render) <= cols,
    ensures
        text_columns(without_escapes(empty_line_text(render, cols))) == cols,
{
    let blanks = spaces(inner_width(render, cols));
    assert(!blanks.contains('\x1b'));
    lemma_border_shows(render);
    lemma_text_stays(blanks, border_text(render));
    lemma_plain_columns(styled_runs(render.border));
    lemma_spaces(inner_width(render, cols));
    lemma_text_columns_join(blanks, border_shows(render));
}

} // verus!
