//! Which tabs are shown where there are more than rows.
use vstd::prelude::*;

verus! {

/// The lesser of two numbers.
pub open spec fn least(a: int, b: int) -> int {
    if a <= b {
        a
    } else {
        b
    }
}

/// The greater of two numbers.
pub open spec fn most(a: int, b: int) -> int {
    if a >= b {
        a
    } else {
        b
    }
}

/// How many of `room` places go to the tabs before the active one, where `before` and `after`
/// are how many there are: half of them, the odd one included, and what the others do not need.
pub open spec fn places_before(before: int, after: int, room: int) -> int {
    least(before, most((room + 1) / 2, room - after))
}

/// How many of `room` places go to the tabs after the active one.
pub open spec fn places_after(before: int, after: int, room: int) -> int {
    least(after, most(room / 2, room - before))
}

/// The tabs that are shown, from `start` up to `end`, and how many there are above and below.
pub struct Shown {
    pub start: int,
    pub end: int,
    pub above: int,
    pub below: int,
}

/// The tabs that are shown in the given rows. Where there are more tabs than rows, two rows are
/// left to say how many are not shown.
pub open spec fn shown_range(count: int, rows: int, active: int) -> Shown {
    if count <= rows {
        Shown { start: 0, end: count, above: 0, below: 0 }
    } else if rows <= 2 {
        Shown { start: 0, end: 0, above: count, below: 0 }
    } else {
        let after = most(0, count - active - 1);
        let start = active - places_before(active, after, rows - 3);
        let end = active + 1 + places_after(active, after, rows - 3);
        Shown { start, end, above: start, below: most(0, count - end) }
    }
}

/// Finds the tabs that are shown: from the first number up to the second. Also gives how many
/// there are above and below.
pub fn calculate_visible_range(tab_count: usize, available_rows: usize, active_index: usize) -> (r: (
    usize,
    usize,
    usize,
    usize,
))
    requires
        active_index < usize::MAX,
    ensures
        shown_range(tab_count as int, available_rows as int, active_index as int) == (Shown {
            start: r.0 as int,
            end: r.1 as int,
            above: r.2 as int,
            below: r.3 as int,
        }),
{
    if tab_count <= available_rows {
        return (0, tab_count, 0, 0);
    }
    if available_rows <= 2 {
        return (0, 0, tab_count, 0);
    }
    let room: usize = available_rows - 3;
    let after: usize = if tab_count > active_index {
        tab_count - active_index - 1
    } else {
        0
    };
    let mut before_taken: usize = 0;
    let mut after_taken: usize = 0;
    let mut taken: usize = 0;
    let mut turn_after = false;
    while taken < room
        invariant
            taken <= room,
            room == available_rows - 3,
            2 < available_rows < tab_count,
            after == most(0, tab_count - active_index - 1),
            active_index < usize::MAX,
            turn_after == (taken % 2 == 1),
            before_taken == places_before(active_index as int, after as int, taken as int),
            after_taken == places_after(active_index as int, after as int, taken as int),
            before_taken <= active_index,
            after_taken <= after,
        decreases room - taken,
    {
        if !turn_after && before_taken < active_index {
            before_taken = before_taken + 1;
        } else if turn_after && after_taken < after {
            after_taken = after_taken + 1;
        } else if before_taken < active_index {
            before_taken = before_taken + 1;
        } else if after_taken < after {
            after_taken = after_taken + 1;
        }
        turn_after = !turn_after;
        taken = taken + 1;
    }
    let start: usize = active_index - before_taken;
    let end: usize = active_index + 1 + after_taken;
    (
        start,
        end,
        start,
        if tab_count > end {
            tab_count - end
        } else {
            0
        },
    )
}

/// The tabs that are shown lie among all tabs, in order, and all others are counted above or
/// below.
pub proof fn every_tab_is_shown_or_counted(count: int, rows: int, active: int)
    requires
        0 <= active < count,
        0 <= rows,
    ensures
        ({
            let r = shown_range(count, rows, active);
            &&& 0 <= r.start <= r.end <= count
            &&& r.above + (r.end - r.start) + r.below == count
        }),
{
}

/// The active tab is shown wherever there is room for any, and as many others as there is room
/// for: the list with the two rows that count the others fills the rows.
pub proof fn the_active_tab_is_shown(count: int, rows: int, active: int)
    requires
        0 <= active < count,
        count <= rows || 3 <= rows,
    ensures
        ({
            let r = shown_range(count, rows, active);
            &&& r.start <= active < r.end
            &&& r.end - r.start == if count <= rows {
                count
            } else {
                rows - 2
            }
        }),
{
}

/// Where there are more tabs than rows, the active tab stands in the middle of those that are
/// shown, with at most one more of them before it than behind it, unless the list of all tabs
/// begins or ends there. Two rows or fewer show none of them, and count them all above.
pub proof fn the_active_tab_stands_in_the_middle(count: int, rows: int, active: int)
    requires
        0 <= active < count,
        0 <= rows < count,
    ensures
        ({
            let r = shown_range(count, rows, active);
            let before = active - r.start;
            let behind = r.end - 1 - active;
            &&& 3 <= rows && 0 < r.start && r.end < count ==> behind <= before <= behind + 1
            &&& 3 <= rows && r.start == 0 && r.end < count ==> before <= behind + 1
            &&& 3 <= rows && 0 < r.start && r.end == count ==> behind <= before
            &&& rows <= 2 ==> r.start == r.end && r.above == count && r.below == 0
            &&& 3 <= rows ==> r.above == r.start && r.below == count - r.end
        }),
{
}

/// Where the tabs fit into the rows, all of them are shown and none is counted.
pub proof fn tabs_that_fit_are_all_shown(count: int, rows: int, active: int)
    requires
        0 <= count <= rows,
    ensures
        ({
            let r = shown_range(count, rows, active);
            r.start == 0 && r.end == count && r.above == 0 && r.below == 0
        }),
{
}

} // verus!
