//! The widths of the cells of all rows, by column.
use vstd::multiset::Multiset;
use vstd::prelude::*;

use crate::layout::{greatest, is_greatest, WidthIndex};
use crate::map::{distinct_keys, lemma_map_of_keys, lemma_map_of_value, map_of, Record, TextMap};
use crate::row::{cell_width, RowView, TabRowState};
use crate::state::index_views;
use crate::width::text_width;

verus! {

/// Width indexes after a row was added.
pub open spec fn widths_with(widths: Seq<Multiset<usize>>, row: RowView) -> Seq<Multiset<usize>> {
    Seq::new(
        widths.len(),
        |i: int|
            if i < row.cells.len() && cell_width(row, i) is Some {
                widths[i].insert(cell_width(row, i)->0)
            } else {
                widths[i]
            },
    )
}

/// The width indexes of `n` columns before any row was added.
pub open spec fn no_widths(n: nat) -> Seq<Multiset<usize>> {
    Seq::new(n, |i: int| Multiset::empty())
}

/// The number of rows whose cell in column `i` has width `w`.
pub open spec fn cells_as_wide(rows: Map<Seq<char>, RowView>, i: int, w: usize) -> nat {
    rows.dom().filter(|id: Seq<char>| cell_width(rows[id], i) == Some(w)).len()
}

/// Width indexes that count the cells of all rows.
pub open spec fn indexed(widths: Seq<Multiset<usize>>, rows: Map<Seq<char>, RowView>, n: nat) -> bool {
    &&& widths.len() == n
    &&& forall|i: int, w: usize|
        0 <= i < n ==> #[trigger] widths[i].count(w) == cells_as_wide(rows, i, w)
}

/// No width is counted more than `n` times.
pub open spec fn counted_up_to(widths: Seq<Multiset<usize>>, n: nat) -> bool {
    forall|i: int, w: usize| 0 <= i < widths.len() ==> #[trigger] widths[i].count(w) <= n
}

/// One more row counts each width at most once more.
pub proof fn lemma_counted_with(widths: Seq<Multiset<usize>>, row: RowView, n: nat)
    requires
        counted_up_to(widths, n),
    ensures
        counted_up_to(widths_with(widths, row), n + 1),
{
    let next = widths_with(widths, row);
    assert forall|i: int, w: usize| 0 <= i < next.len() implies #[trigger] next[i].count(w) <= n
        + 1 by {
        assert(widths[i].count(w) <= n);
    }
}

/// Adds the widths of the cells of a row.
pub fn add_row_widths_to_indexes(width_indexes: &mut Vec<WidthIndex>, row: &TabRowState)
    requires
        row.cells@.len() <= old(width_indexes)@.len(),
        counted_up_to(index_views(old(width_indexes)@), (usize::MAX - 1) as nat),
    ensures
        index_views(final(width_indexes)@) == widths_with(
            index_views(old(width_indexes)@),
            row@,
        ),
{
    let ghost start = index_views(width_indexes@);
    let ghost wanted = widths_with(start, row@);
    let mut i: usize = 0;
    while i < row.cells.len()
        invariant
            i <= row.cells.len(),
            row.cells@.len() <= width_indexes@.len(),
            width_indexes@.len() == start.len(),
            wanted == widths_with(start, row@),
            counted_up_to(start, (usize::MAX - 1) as nat),
            forall|j: int| 0 <= j < i ==> #[trigger] index_views(width_indexes@)[j] == wanted[j],
            forall|j: int|
                i <= j < start.len() ==> #[trigger] index_views(width_indexes@)[j] == start[j],
        decreases row.cells.len() - i,
    {
        let ghost before = width_indexes@;
        assert(index_views(before)[i as int] == start[i as int]);
        if let Some(cell) = &row.cells[i] {
            let mut index = width_indexes[i].clone();
            assert(start[i as int].count(text_width(cell@.plain_text)) <= usize::MAX - 1);
            index.replace(None, cell.display_width());
            width_indexes.set(i, index);
        }
        proof {
            assert(row@.cells[i as int] == match row.cells@[i as int] {
                Some(cell) => Some(cell@),
                None => None,
            });
            assert(index_views(width_indexes@)[i as int] == wanted[i as int]);
            assert forall|j: int| 0 <= j < start.len() && j != i implies #[trigger] index_views(
                width_indexes@,
            )[j] == index_views(before)[j] by {}
        }
        i = i + 1;
    }
    assert(index_views(width_indexes@) =~= wanted);
}

/// Width indexes for `n` columns before any row was added.
pub fn empty_indexes(n: usize) -> (r: Vec<WidthIndex>)
    ensures
        index_views(r@) == no_widths(n as nat),
        r@.len() == n,
{
    let mut r: Vec<WidthIndex> = Vec::new();
    while r.len() < n
        invariant
            r@.len() <= n,
            forall|j: int| 0 <= j < r@.len() ==> (#[trigger] r@[j])@ == Multiset::<usize>::empty(),
        decreases n - r.len(),
    {
        r.push(WidthIndex::default());
    }
    assert(index_views(r@) =~= no_widths(n as nat));
    r
}

/// Whether two lists of width indexes agree.
pub fn same_indexes(a: &Vec<WidthIndex>, b: &Vec<WidthIndex>) -> (r: bool)
    ensures
        r == (index_views(a@) == index_views(b@)),
{
    if a.len() != b.len() {
        assert(index_views(a@).len() != index_views(b@).len());
        return false;
    }
    let mut i: usize = 0;
    while i < a.len()
        invariant
            i <= a.len(),
            a.len() == b.len(),
            forall|j: int| 0 <= j < i ==> #[trigger] index_views(a@)[j] == index_views(b@)[j],
        decreases a.len() - i,
    {
        if !a[i].agrees(&b[i]) {
            assert(index_views(a@)[i as int] != index_views(b@)[i as int]);
            return false;
        }
        i = i + 1;
    }
    assert(index_views(a@) =~= index_views(b@));
    true
}

/// One more row is one more cell in each column in which it was written.
proof fn lemma_row_counted(
    rows: Map<Seq<char>, RowView>,
    id: Seq<char>,
    row: RowView,
    i: int,
    w: usize,
)
    requires
        rows.dom().finite(),
        !rows.contains_key(id),
    ensures
        cells_as_wide(rows.insert(id, row), i, w) == cells_as_wide(rows, i, w) + if cell_width(
            row,
            i,
        ) == Some(w) {
            1nat
        } else {
            0
        },
{
    let more = rows.insert(id, row);
    let before = rows.dom().filter(|k: Seq<char>| cell_width(rows[k], i) == Some(w));
    let after = more.dom().filter(|k: Seq<char>| cell_width(more[k], i) == Some(w));
    if cell_width(row, i) == Some(w) {
        assert(after =~= before.insert(id));
    } else {
        assert(after =~= before);
    }
}

proof fn lemma_map_of_finite<K, T>(p: Seq<(K, T)>)
    ensures
        map_of(p).dom().finite(),
    decreases p.len(),
{
    if p.len() > 0 {
        lemma_map_of_finite(p.drop_last());
    }
}

/// Where there are no rows, no width is counted.
pub proof fn lemma_nothing_indexed(n: nat)
    ensures
        indexed(no_widths(n), Map::empty(), n),
{
    let none = Map::<Seq<char>, RowView>::empty();
    assert forall|i: int, w: usize| 0 <= i < n implies #[trigger] no_widths(n)[i].count(w)
        == cells_as_wide(none, i, w) by {
        assert(none.dom().filter(|id: Seq<char>| cell_width(none[id], i) == Some(w))
            =~= Set::<Seq<char>>::empty());
    }
}

/// Width indexes that count one more row.
pub proof fn lemma_indexed_with(
    widths: Seq<Multiset<usize>>,
    rows: Map<Seq<char>, RowView>,
    id: Seq<char>,
    row: RowView,
    n: nat,
)
    requires
        rows.dom().finite(),
        !rows.contains_key(id),
        indexed(widths, rows, n),
        row.cells.len() == n,
    ensures
        indexed(widths_with(widths, row), rows.insert(id, row), n),
{
    let next = widths_with(widths, row);
    assert forall|i: int, w: usize| 0 <= i < n implies #[trigger] next[i].count(w)
        == cells_as_wide(rows.insert(id, row), i, w) by {
        lemma_row_counted(rows, id, row, i, w);
        assert(widths[i].count(w) == cells_as_wide(rows, i, w));
        if let Some(own) = cell_width(row, i) {
            assert(next[i] == widths[i].insert(own));
            if own == w {
                assert(next[i].count(w) == widths[i].count(w) + 1);
            } else {
                assert(next[i].count(w) == widths[i].count(w));
            }
        }
    }
}

/// The width indexes that count the cells of all rows.
pub open spec fn row_widths(rows: Map<Seq<char>, RowView>, n: nat) -> Seq<Multiset<usize>> {
    choose|widths: Seq<Multiset<usize>>| indexed(widths, rows, n)
}

/// However many rows there are, there are width indexes that count their cells.
pub proof fn rows_can_be_counted(rows: Map<Seq<char>, RowView>, n: nat)
    requires
        rows.dom().finite(),
        forall|id: Seq<char>| #[trigger] rows.contains_key(id) ==> rows[id].cells.len() == n,
    ensures
        indexed(row_widths(rows, n), rows, n),
    decreases rows.dom().len(),
{
    if rows.dom().len() == 0 {
        assert(rows =~= Map::<Seq<char>, RowView>::empty());
        lemma_nothing_indexed(n);
    } else {
        let id = rows.dom().choose();
        let fewer = rows.remove(id);
        assert(rows.contains_key(id));
        assert forall|k: Seq<char>| #[trigger] fewer.contains_key(
            k,
        ) implies fewer[k].cells.len() == n by {
            assert(rows.contains_key(k));
        }
        rows_can_be_counted(fewer, n);
        lemma_indexed_with(row_widths(fewer, n), fewer, id, rows[id], n);
        assert(fewer.insert(id, rows[id]) =~= rows);
    }
}

/// The width of every cell is counted, and no other.
pub proof fn the_widths_of_all_cells_are_counted(
    widths: Seq<Multiset<usize>>,
    rows: Map<Seq<char>, RowView>,
    n: nat,
    i: int,
    w: usize,
)
    requires
        rows.dom().finite(),
        indexed(widths, rows, n),
        0 <= i < n,
    ensures
        widths[i].count(w) > 0 <==> exists|id: Seq<char>| #[trigger]
            rows.contains_key(id) && cell_width(rows[id], i) == Some(w),
{
    let wide = rows.dom().filter(|id: Seq<char>| cell_width(rows[id], i) == Some(w));
    assert(widths[i].count(w) == wide.len());
    if exists|id: Seq<char>| #[trigger]
        rows.contains_key(id) && cell_width(rows[id], i) == Some(w) {
        let id = choose|id: Seq<char>| #[trigger]
            rows.contains_key(id) && cell_width(rows[id], i) == Some(w);
        assert(wide.contains(id));
        assert(wide.len() > 0) by {
            if wide.len() == 0 {
                assert(wide =~= Set::<Seq<char>>::empty());
            }
        }
    }
    if wide.len() > 0 {
        let id = wide.choose();
        assert(wide.contains(id));
        assert(rows.contains_key(id));
    }
}

/// Of widths that occur, one is the greatest.
proof fn lemma_one_is_greatest(widths: Multiset<usize>, bound: usize, w: usize)
    requires
        widths.count(w) > 0,
        forall|v: usize| #[trigger] widths.count(v) > 0 ==> v <= bound,
    ensures
        exists|g: usize| #[trigger] is_greatest(g, widths),
    decreases bound,
{
    if widths.count(bound) > 0 {
        assert(is_greatest(bound, widths));
    } else {
        assert(bound > 0);
        let less = (bound - 1) as usize;
        assert forall|v: usize| #[trigger] widths.count(v) > 0 implies v <= less by {}
        lemma_one_is_greatest(widths, less, w);
    }
}

/// The content of a column is as wide as the widest of its cells: none is wider, and one is just
/// as wide, if there is any. Without cells it has no width.
pub proof fn columns_are_as_wide_as_their_widest_cell(
    widths: Seq<Multiset<usize>>,
    rows: Map<Seq<char>, RowView>,
    n: nat,
    i: int,
)
    requires
        rows.dom().finite(),
        indexed(widths, rows, n),
        0 <= i < n,
    ensures
        forall|id: Seq<char>| #[trigger]
            rows.contains_key(id) ==> (cell_width(rows[id], i) matches Some(w) ==> w <= greatest(
                widths[i],
            )),
        greatest(widths[i]) == 0 || exists|id: Seq<char>| #[trigger]
            rows.contains_key(id) && cell_width(rows[id], i) == Some(greatest(widths[i])),
{
    let m = widths[i];
    if m.len() == 0 {
        assert(m =~= Multiset::<usize>::empty());
    } else {
        if forall|v: usize| m.count(v) == 0 {
            assert(m =~= Multiset::<usize>::empty());
        }
        let w = choose|w: usize| m.count(w) > 0;
        lemma_one_is_greatest(m, usize::MAX, w);
        assert(is_greatest(greatest(m), m));
        the_widths_of_all_cells_are_counted(widths, rows, n, i, greatest(m));
    }
    assert forall|id: Seq<char>| #[trigger] rows.contains_key(id) implies (cell_width(
        rows[id],
        i,
    ) matches Some(w) ==> w <= greatest(m)) by {
        if let Some(w) = cell_width(rows[id], i) {
            the_widths_of_all_cells_are_counted(widths, rows, n, i, w);
        }
    }
}

/// Counts the cells of all rows.
pub fn index_rows(rows: &TextMap<TabRowState>, n: usize) -> (r: Vec<WidthIndex>)
    requires
        forall|id: Seq<char>| #[trigger] rows@.contains_key(id) ==> rows@[id].cells.len() == n,
    ensures
        indexed(index_views(r@), rows@, n as nat),
        index_views(r@) == row_widths(rows@, n as nat),
{
    let mut indexes = empty_indexes(n);
    let count: usize = rows.len();
    let ghost all = rows.listing();
    let mut k: usize = 0;
    proof {
        assert(all.take(0) =~= Seq::<(Seq<char>, RowView)>::empty());
        lemma_nothing_indexed(n as nat);
    }
    while k < count
        invariant
            k <= count,
            count == all.len(),
            all == rows.listing(),
            distinct_keys(all),
            rows@ == map_of(all),
            forall|id: Seq<char>| #[trigger] rows@.contains_key(id) ==> rows@[id].cells.len() == n,
            indexed(index_views(indexes@), map_of(all.take(k as int)), n as nat),
            counted_up_to(index_views(indexes@), k as nat),
        decreases count - k,
    {
        let row = rows.value_at(k);
        proof {
            let front = all.take(k as int);
            let next = all.take(k + 1);
            let (id, view) = all[k as int];
            assert(next.drop_last() =~= front);
            assert(next.last() == all[k as int]);
            lemma_map_of_finite(front);
            lemma_map_of_keys(front, id);
            if map_of(front).contains_key(id) {
                let j = choose|j: int| 0 <= j < front.len() && (#[trigger] front[j]).0 == id;
                assert(front[j] == all[j]);
                assert(all[j].0 != all[k as int].0);
            }
            lemma_map_of_value(all, k as int);
            assert(rows@.contains_key(id));
            assert(view.cells.len() == n);
            lemma_indexed_with(index_views(indexes@), map_of(front), id, view, n as nat);
            lemma_counted_with(index_views(indexes@), view, k as nat);
        }
        add_row_widths_to_indexes(&mut indexes, row);
        k = k + 1;
    }
    assert(all.take(all.len() as int) =~= all);
    proof {
        rows_determine_their_width_indexes(
            index_views(indexes@),
            row_widths(rows@, n as nat),
            rows@,
            n as nat,
        );
    }
    indexes
}

/// The rows determine the width indexes that count their cells.
pub proof fn rows_determine_their_width_indexes(
    a: Seq<Multiset<usize>>,
    b: Seq<Multiset<usize>>,
    rows: Map<Seq<char>, RowView>,
    n: nat,
)
    requires
        indexed(a, rows, n),
        indexed(b, rows, n),
    ensures
        a == b,
{
    assert forall|i: int| 0 <= i < n implies a[i] == b[i] by {
        assert forall|w: usize| a[i].count(w) == b[i].count(w) by {
            assert(a[i].count(w) == cells_as_wide(rows, i, w));
        }
        assert(a[i] =~= b[i]);
    }
    assert(a =~= b);
}

} // verus!
