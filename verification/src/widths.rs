//! The widths of all columns of a row together.
use vstd::arithmetic::power2::{lemma_pow2_pos, pow2};
use vstd::prelude::*;

use crate::layout::{own_width, weight_of, width_alone, ResizeMode, ResizeSpec, TruncationSide};
use crate::schema::{column_views, rules, ColumnSpec};
use crate::share::{
    at_most, floor, fraction, lesser, share, share_of, shares_of_small_amounts_are_accurate, Part,
    HIGH,
};

verus! {

// ---------------------------------------------------------------------------------------
// Model
// ---------------------------------------------------------------------------------------

/// Whether a column shares the room with others.
pub open spec fn flows(rule: ResizeSpec) -> bool {
    weight_of(rule) is Some
}

/// The width that the first `n` columns take that do not share the room.
pub open spec fn own_total(rules: Seq<ResizeSpec>, naturals: Seq<usize>, n: int) -> nat
    decreases n,
{
    if n <= 0 {
        0
    } else {
        own_total(rules, naturals, n - 1) + if flows(rules[n - 1]) {
            0
        } else {
            own_width(rules[n - 1], naturals[n - 1]) as nat
        }
    }
}

/// The sum of the given widths over the flowing columns among the first `n`.
pub open spec fn flow_total(rules: Seq<ResizeSpec>, widths: Seq<usize>, n: int) -> nat
    decreases n,
{
    if n <= 0 {
        0
    } else {
        flow_total(rules, widths, n - 1) + if flows(rules[n - 1]) {
            widths[n - 1] as nat
        } else {
            0
        }
    }
}

/// The sum of the weights of the first `n` columns.
pub open spec fn weight_total(rules: Seq<ResizeSpec>, n: int) -> nat
    decreases n,
{
    if n <= 0 {
        0
    } else {
        weight_total(rules, n - 1) + match weight_of(rules[n - 1]) {
            Some(weight) => weight as nat,
            None => 0,
        }
    }
}

/// What is left of the available width for the columns that share it.
pub open spec fn room(
    rules: Seq<ResizeSpec>,
    naturals: Seq<usize>,
    available: nat,
    gap: nat,
) -> nat {
    let n = rules.len() as int;
    let taken = own_total(rules, naturals, n) + if n > 0 {
        gap * (n - 1)
    } else {
        0
    };
    if available >= taken {
        (available - taken) as nat
    } else {
        0
    }
}

/// Each column as wide as its content, or as its own rule says.
pub open spec fn own_widths(rules: Seq<ResizeSpec>, naturals: Seq<usize>) -> Seq<usize> {
    Seq::new(rules.len(), |i: int| own_width(rules[i], naturals[i]))
}

/// The width of a flowing column before what is left over is handed out: the whole part of
/// its share, and no more than its content needs.
pub open spec fn base_width(rule: ResizeSpec, natural: usize, room: nat, total: nat) -> usize {
    match weight_of(rule) {
        Some(weight) => lesser(floor(share(room, weight as nat, total)), natural as nat) as usize,
        None => own_width(rule, natural),
    }
}

/// The widths of all columns before what is left over is handed out.
pub open spec fn base_widths(
    rules: Seq<ResizeSpec>,
    naturals: Seq<usize>,
    room: nat,
    total: nat,
) -> Seq<usize> {
    Seq::new(rules.len(), |i: int| base_width(rules[i], naturals[i], room, total))
}

/// The part of a column's share after the point.
pub open spec fn rest_of_share(rule: ResizeSpec, room: nat, total: nat) -> (nat, nat) {
    match weight_of(rule) {
        Some(weight) => fraction(share(room, weight as nat, total)),
        None => (0, 0),
    }
}

/// An index added to a ranking, behind every index whose value is at least as great.
pub open spec fn placed(order: Seq<int>, i: int, value: spec_fn(int) -> (nat, nat)) -> Seq<int>
    decreases order.len(),
{
    if order.len() == 0 || at_most(value(i), value(order.last())) {
        order.push(i)
    } else {
        placed(order.drop_last(), i, value).push(order.last())
    }
}

/// The flowing columns among the first `n`, those with the greatest rest of their share
/// first, and of equal ones the first first.
pub open spec fn ranking(rules: Seq<ResizeSpec>, room: nat, total: nat, n: int) -> Seq<int>
    decreases n,
{
    if n <= 0 {
        Seq::empty()
    } else if flows(rules[n - 1]) {
        placed(
            ranking(rules, room, total, n - 1),
            n - 1,
            |i: int| rest_of_share(rules[i], room, total),
        )
    } else {
        ranking(rules, room, total, n - 1)
    }
}

/// One column of width to each of the given columns in turn that needs it, as long as there
/// is any: the widths, and what is left.
pub open spec fn one_round(
    widths: Seq<usize>,
    naturals: Seq<usize>,
    order: Seq<int>,
    left: nat,
) -> (Seq<usize>, nat)
    decreases order.len(),
{
    if order.len() == 0 || left == 0 {
        (widths, left)
    } else {
        let i = order[0];
        if widths[i] < naturals[i] {
            one_round(
                widths.update(i, (widths[i] + 1) as usize),
                naturals,
                order.drop_first(),
                (left - 1) as nat,
            )
        } else {
            one_round(widths, naturals, order.drop_first(), left)
        }
    }
}

/// Round after round until nothing is left or no column needs more.
pub open spec fn handed_out(
    widths: Seq<usize>,
    naturals: Seq<usize>,
    order: Seq<int>,
    left: nat,
) -> Seq<usize>
    decreases left,
{
    let (next, rest) = one_round(widths, naturals, order, left);
    if rest >= left {
        widths
    } else {
        handed_out(next, naturals, order, rest)
    }
}

/// The widths of columns: as their rules say where there is room for all, otherwise with
/// the room shared out among the flowing columns by weight.
pub open spec fn solved_widths(
    rules: Seq<ResizeSpec>,
    naturals: Seq<usize>,
    available: nat,
    gap: nat,
) -> Seq<usize> {
    let n = rules.len() as int;
    let room = room(rules, naturals, available, gap);
    let total = weight_total(rules, n);
    if flow_total(rules, naturals, n) <= room {
        own_widths(rules, naturals)
    } else {
        let base = base_widths(rules, naturals, room, total);
        let given = flow_total(rules, base, n);
        handed_out(
            base,
            naturals,
            ranking(rules, room, total, n),
            if room >= given {
                (room - given) as nat
            } else {
                0
            },
        )
    }
}

// ---------------------------------------------------------------------------------------
// Ranking
// ---------------------------------------------------------------------------------------

/// The indices of a ranking.
pub open spec fn indices(v: Seq<(Part, usize)>) -> Seq<int> {
    v.map_values(|x: (Part, usize)| x.1 as int)
}

/// A ranking holds the flowing columns among the first `n` and nothing else, each once.
proof fn lemma_ranking(rules: Seq<ResizeSpec>, room: nat, total: nat, n: int)
    requires
        0 <= n <= rules.len(),
    ensures
        forall|k: int|
            0 <= k < ranking(rules, room, total, n).len() ==> 0 <= #[trigger] ranking(
                rules,
                room,
                total,
                n,
            )[k] < n && flows(rules[ranking(rules, room, total, n)[k]]),
        forall|i: int|
            0 <= i < n && flows(#[trigger] rules[i]) ==> ranking(rules, room, total, n).contains(i),
        ranking(rules, room, total, n).no_duplicates(),
    decreases n,
{
    if n > 0 {
        lemma_ranking(rules, room, total, n - 1);
        let before = ranking(rules, room, total, n - 1);
        let f = |i: int| rest_of_share(rules[i], room, total);
        if flows(rules[n - 1]) {
            let after = placed(before, n - 1, f);
            lemma_placed(before, n - 1, f);
            assert forall|k: int| 0 <= k < after.len() implies 0 <= #[trigger] after[k] < n && flows(
                rules[after[k]],
            ) by {
                assert(after.contains(after[k]));
                if after[k] != n - 1 {
                    let j = choose|j: int| 0 <= j < before.len() && before[j] == after[k];
                    assert(before[j] == after[k]);
                }
            }
            if before.contains(n - 1) {
                let j = choose|j: int| 0 <= j < before.len() && before[j] == n - 1;
                assert(0 <= before[j] < n - 1);
            }
        }
    }
}

/// Placing adds one index and keeps the others.
proof fn lemma_placed(order: Seq<int>, i: int, value: spec_fn(int) -> (nat, nat))
    ensures
        placed(order, i, value).len() == order.len() + 1,
        forall|x: int|
            #[trigger] placed(order, i, value).contains(x) <==> x == i || order.contains(x),
        order.no_duplicates() && !order.contains(i) ==> placed(order, i, value).no_duplicates(),
    decreases order.len(),
{
    let after = placed(order, i, value);
    if order.len() == 0 || at_most(value(i), value(order.last())) {
        assert forall|x: int| #[trigger] after.contains(x) <==> x == i || order.contains(x) by {
            lemma_contains_push(order, i, x);
        }
    } else {
        let front = order.drop_last();
        lemma_placed(front, i, value);
        let inner = placed(front, i, value);
        assert(order =~= front.push(order.last()));
        assert forall|x: int| #[trigger] after.contains(x) <==> x == i || order.contains(x) by {
            lemma_contains_push(inner, order.last(), x);
            lemma_contains_push(front, order.last(), x);
            assert(inner.contains(x) <==> x == i || front.contains(x));
        }
        if order.no_duplicates() && !order.contains(i) {
            assert(front.no_duplicates());
            lemma_contains_push(front, order.last(), i);
            assert(!front.contains(order.last()));
            assert(i != order.last());
            assert(inner.contains(order.last()) <==> order.last() == i || front.contains(
                order.last(),
            ));
        }
    }
}

proof fn lemma_contains_push(s: Seq<int>, i: int, x: int)
    ensures
        s.push(i).contains(x) <==> x == i || s.contains(x),
{
    if s.contains(x) {
        let k = choose|k: int| 0 <= k < s.len() && s[k] == x;
        assert(s.push(i)[k] == x);
    }
    if x == i {
        assert(s.push(i)[s.len() as int] == x);
    }
    if s.push(i).contains(x) {
        let k = choose|k: int| 0 <= k < s.push(i).len() && s.push(i)[k] == x;
        if k < s.len() {
            assert(s[k] == x);
        }
    }
}

/// Puts an index into a ranking.
fn place(ranked: &mut Vec<(Part, usize)>, part: Part, i: usize, Ghost(value): Ghost<
    spec_fn(int) -> (nat, nat),
>)
    requires
        part.numerator < HIGH,
        part@ == value(i as int),
        forall|k: int|
            0 <= k < old(ranked)@.len() ==> (#[trigger] old(ranked)@[k]).0.numerator < HIGH
                && old(ranked)@[k].0@ == value(old(ranked)@[k].1 as int),
    ensures
        indices(final(ranked)@) == placed(indices(old(ranked)@), i as int, value),
        forall|k: int|
            0 <= k < final(ranked)@.len() ==> (#[trigger] final(ranked)@[k]).0.numerator < HIGH
                && final(ranked)@[k].0@ == value(final(ranked)@[k].1 as int),
{
    let ghost before = ranked@;
    let ghost order = indices(before);
    let mut k: usize = ranked.len();
    assert(order.take(k as int) =~= order);
    assert(placed(order, i as int, value) =~= placed(order.take(k as int), i as int, value)
        + order.skip(k as int));
    while k > 0 && !part.at_most(&ranked[k - 1].0)
        invariant
            k <= ranked.len(),
            ranked@ == before,
            order == indices(before),
            part.numerator < HIGH,
            part@ == value(i as int),
            forall|j: int|
                0 <= j < before.len() ==> (#[trigger] before[j]).0.numerator < HIGH
                    && before[j].0@ == value(before[j].1 as int),
            placed(order, i as int, value) == placed(order.take(k as int), i as int, value)
                + order.skip(k as int),
        decreases k,
    {
        proof {
            let front = order.take(k as int);
            assert(front.last() == before[k - 1].1 as int);
            assert(before[k - 1].0@ == value(before[k - 1].1 as int));
            assert(front.drop_last() =~= order.take(k - 1));
            assert(placed(order.take(k - 1), i as int, value).push(front.last()) + order.skip(
                k as int,
            ) =~= placed(order.take(k - 1), i as int, value) + order.skip(k - 1));
        }
        k = k - 1;
    }
    proof {
        let front = order.take(k as int);
        if k > 0 {
            assert(front.last() == before[k - 1].1 as int);
            assert(before[k - 1].0@ == value(before[k - 1].1 as int));
        }
        assert(placed(front, i as int, value) == front.push(i as int));
    }
    ranked.insert(k, (part, i));
    assert(indices(ranked@) =~= order.take(k as int).push(i as int) + order.skip(k as int));
}

// ---------------------------------------------------------------------------------------
// Solving
// ---------------------------------------------------------------------------------------

/// The sums of the first `n` columns are not too large for 128 bits.
proof fn lemma_totals_fit(rules: Seq<ResizeSpec>, widths: Seq<usize>, n: int)
    requires
        0 <= n <= rules.len(),
        rules.len() == widths.len(),
        rules.len() <= usize::MAX,
    ensures
        own_total(rules, widths, n) <= n * usize::MAX <= u128::MAX,
        flow_total(rules, widths, n) <= n * usize::MAX,
        weight_total(rules, n) <= n * usize::MAX,
    decreases n,
{
    assert(n * usize::MAX <= u128::MAX) by (nonlinear_arith)
        requires
            0 <= n <= usize::MAX,
            usize::MAX <= 0xffff_ffff_ffff_ffff,
    ;
    if n > 0 {
        lemma_totals_fit(rules, widths, n - 1);
        assert(n * usize::MAX == (n - 1) * usize::MAX + usize::MAX) by (nonlinear_arith);
    }
}

/// A total that depends only on the widths of the flowing columns.
proof fn lemma_flow_total_same(rules: Seq<ResizeSpec>, a: Seq<usize>, b: Seq<usize>, n: int)
    requires
        0 <= n <= rules.len(),
        forall|i: int| 0 <= i < n && flows(#[trigger] rules[i]) ==> a[i] == b[i],
    ensures
        flow_total(rules, a, n) == flow_total(rules, b, n),
    decreases n,
{
    if n > 0 {
        assert(flows(rules[n - 1]) ==> a[n - 1] == b[n - 1]);
        lemma_flow_total_same(rules, a, b, n - 1);
    }
}

/// The columns that share the room, and the totals of all columns.
struct Totals {
    own: u128,
    flow: u128,
    weight: u128,
}

/// Adds up the columns.
fn add_up(columns: &[ColumnSpec], natural_widths: &[usize]) -> (r: Totals)
    requires
        columns.len() == natural_widths.len(),
    ensures
        r.own == own_total(rules(column_views(columns@)), natural_widths@, columns@.len() as int),
        r.flow == flow_total(rules(column_views(columns@)), natural_widths@, columns@.len() as int),
        r.weight == weight_total(rules(column_views(columns@)), columns@.len() as int),
{
    let ghost specs = rules(column_views(columns@));
    let mut own: u128 = 0;
    let mut flow: u128 = 0;
    let mut weight: u128 = 0;
    let mut i: usize = 0;
    while i < columns.len()
        invariant
            i <= columns.len(),
            columns.len() == natural_widths.len(),
            specs == rules(column_views(columns@)),
            own == own_total(specs, natural_widths@, i as int),
            flow == flow_total(specs, natural_widths@, i as int),
            weight == weight_total(specs, i as int),
        decreases columns.len() - i,
    {
        let rule = columns[i].resize_spec;
        let natural: usize = natural_widths[i];
        assert(specs[i as int] == rule);
        proof {
            lemma_totals_fit(specs, natural_widths@, i + 1);
        }
        match rule.flow_weight() {
            Some(w) => {
                flow = flow + natural as u128;
                weight = weight + w as u128;
            },
            None => {
                own = own + width_alone(rule, natural) as u128;
            },
        }
        i = i + 1;
    }
    Totals { own, flow, weight }
}

/// What is left of the available width for the columns that share it.
fn room_left(own: u128, count: usize, available: usize, gap: usize) -> (r: usize)
    ensures
        r == ({
            let taken = own + if count > 0 {
                gap * (count - 1)
            } else {
                0
            };
            if available >= taken {
                available - taken
            } else {
                0
            }
        }),
{
    let gaps: u128 = if count > 0 {
        assert(gap * (count - 1) <= 0xffff_ffff_ffff_ffff * 0xffff_ffff_ffff_ffff)
            by (nonlinear_arith)
            requires
                0 <= gap <= 0xffff_ffff_ffff_ffff,
                0 <= count - 1 <= 0xffff_ffff_ffff_ffff,
        ;
        gap as u128 * (count - 1) as u128
    } else {
        0
    };
    let available: u128 = available as u128;
    if available >= gaps && available - gaps >= own {
        (available - gaps - own) as usize
    } else {
        0
    }
}

/// Each column as wide as its content, or as its own rule says.
fn widths_alone(columns: &[ColumnSpec], natural_widths: &[usize]) -> (r: Vec<usize>)
    requires
        columns.len() == natural_widths.len(),
    ensures
        r@ == own_widths(rules(column_views(columns@)), natural_widths@),
{
    let mut r: Vec<usize> = Vec::new();
    let mut i: usize = 0;
    while i < columns.len()
        invariant
            i <= columns.len(),
            columns.len() == natural_widths.len(),
            r@.len() == i,
            forall|j: int|
                0 <= j < i ==> #[trigger] r@[j] == own_width(
                    rules(column_views(columns@))[j],
                    natural_widths@[j],
                ),
        decreases columns.len() - i,
    {
        r.push(width_alone(columns[i].resize_spec, natural_widths[i]));
        i = i + 1;
    }
    assert(r@ =~= own_widths(rules(column_views(columns@)), natural_widths@));
    r
}

/// Hands out what is left, one column of width at a time.
fn hand_out(
    base: Vec<usize>,
    natural_widths: &[usize],
    ranked: &Vec<(Part, usize)>,
    leftover: u128,
) -> (r: Vec<usize>)
    requires
        base@.len() == natural_widths@.len(),
        forall|k: int|
            0 <= k < ranked@.len() ==> 0 <= (#[trigger] ranked@[k]).1 < natural_widths@.len(),
    ensures
        r@ == handed_out(base@, natural_widths@, indices(ranked@), leftover as nat),
{
    let ghost goal = handed_out(base@, natural_widths@, indices(ranked@), leftover as nat);
    let ghost order = indices(ranked@);
    let ghost naturals = natural_widths@;
    let mut widths = base;
    let mut left: u128 = leftover;
    loop
        invariant
            goal == handed_out(base@, natural_widths@, indices(ranked@), leftover as nat),
            widths@.len() == natural_widths@.len(),
            naturals == natural_widths@,
            order == indices(ranked@),
            forall|k: int|
                0 <= k < ranked@.len() ==> 0 <= (#[trigger] ranked@[k]).1 < natural_widths@.len(),
            goal == handed_out(widths@, naturals, order, left as nat),
        decreases left,
    {
        let ghost before = widths@;
        let before_left: u128 = left;
        let mut k: usize = 0;
        assert(order.skip(0) =~= order);
        while k < ranked.len() && left > 0
            invariant
                k <= ranked.len(),
                widths@.len() == natural_widths@.len(),
                naturals == natural_widths@,
                order == indices(ranked@),
                forall|k: int|
                    0 <= k < ranked@.len() ==> 0 <= (#[trigger] ranked@[k]).1
                        < natural_widths@.len(),
                left <= before_left,
                left == before_left ==> widths@ == before,
                one_round(before, naturals, order, before_left as nat) == one_round(
                    widths@,
                    naturals,
                    order.skip(k as int),
                    left as nat,
                ),
            decreases ranked.len() - k,
        {
            let i: usize = ranked[k].1;
            assert(order.skip(k as int)[0] == i as int);
            assert(order.skip(k as int).drop_first() =~= order.skip(k + 1));
            if widths[i] < natural_widths[i] {
                let w: usize = widths[i] + 1;
                widths.set(i, w);
                left = left - 1;
            }
            k = k + 1;
        }
        assert(one_round(before, naturals, order, before_left as nat) == (widths@, left as nat));
        if left == before_left {
            return widths;
        }
    }
}

/// The widths of all columns in a row of the given width, with gaps of the given width
/// between them.
pub fn solve_column_widths(
    columns: &[ColumnSpec],
    natural_widths: &[usize],
    available_width: usize,
    gap_width: usize,
) -> (widths: Vec<usize>)
    requires
        columns.len() == natural_widths.len(),
    ensures
        widths@ == solved_widths(
            rules(column_views(columns@)),
            natural_widths@,
            available_width as nat,
            gap_width as nat,
        ),
{
    let ghost specs = rules(column_views(columns@));
    let ghost naturals = natural_widths@;
    let n: usize = columns.len();
    let totals = add_up(columns, natural_widths);
    let remaining: usize = room_left(totals.own, n, available_width, gap_width);
    assert(remaining == room(specs, naturals, available_width as nat, gap_width as nat));
    if totals.flow <= remaining as u128 {
        return widths_alone(columns, natural_widths);
    }
    let ghost total = weight_total(specs, n as int);
    let ghost space = remaining as nat;
    let ghost value = |i: int| rest_of_share(specs[i], space, total);
    proof {
        lemma_weight_positive(specs, naturals, n as int);
    }
    let mut widths: Vec<usize> = Vec::new();
    let mut ranked: Vec<(Part, usize)> = Vec::new();
    let mut assigned: u128 = 0;
    let mut i: usize = 0;
    assert(indices(ranked@) =~= Seq::<int>::empty());
    while i < n
        invariant
            i <= n,
            n == columns.len(),
            columns.len() == natural_widths.len(),
            specs == rules(column_views(columns@)),
            naturals == natural_widths@,
            space == remaining as nat,
            total == weight_total(specs, n as int),
            totals.weight == total,
            totals.weight > 0,
            value == (|i: int| rest_of_share(specs[i], space, total)),
            widths@.len() == i,
            forall|j: int|
                0 <= j < i ==> #[trigger] widths@[j] == base_width(
                    specs[j],
                    naturals[j],
                    space,
                    total,
                ),
            indices(ranked@) == ranking(specs, space, total, i as int),
            forall|k: int|
                0 <= k < ranked@.len() ==> (#[trigger] ranked@[k]).0.numerator < HIGH
                    && ranked@[k].0@ == value(ranked@[k].1 as int),
            assigned == flow_total(specs, base_widths(specs, naturals, space, total), i as int),
        decreases n - i,
    {
        let rule = columns[i].resize_spec;
        let natural: usize = natural_widths[i];
        assert(specs[i as int] == rule);
        let ghost base = base_widths(specs, naturals, space, total);
        proof {
            lemma_totals_fit(specs, base, i + 1);
        }
        match rule.flow_weight() {
            Some(weight) => {
                let exact = share_of(remaining as u64, weight as u64, totals.weight);
                let width: usize = exact.floor_up_to(natural);
                let part = exact.fraction();
                widths.push(width);
                assigned = assigned + width as u128;
                place(&mut ranked, part, i, Ghost(value));
            },
            None => {
                widths.push(width_alone(rule, natural));
            },
        }
        i = i + 1;
    }
    let ghost base = base_widths(specs, naturals, space, total);
    assert(widths@ =~= base);
    let left: u128 = if remaining as u128 >= assigned {
        remaining as u128 - assigned
    } else {
        0
    };
    proof {
        lemma_ranking(specs, space, total, n as int);
        assert forall|k: int| 0 <= k < ranked@.len() implies 0 <= (#[trigger] ranked@[k]).1
            < naturals.len() by {
            assert(indices(ranked@)[k] == ranked@[k].1 as int);
        }
    }
    hand_out(widths, natural_widths, &ranked, left)
}

/// Where a column flows that is not empty, there is weight.
proof fn lemma_weight_positive(rules: Seq<ResizeSpec>, widths: Seq<usize>, n: int)
    requires
        0 <= n <= rules.len(),
    ensures
        flow_total(rules, widths, n) > 0 ==> weight_total(rules, n) > 0,
    decreases n,
{
    if n > 0 {
        lemma_weight_positive(rules, widths, n - 1);
    }
}

// ---------------------------------------------------------------------------------------
// Laws
// ---------------------------------------------------------------------------------------

/// Every index of an order is that of a flowing column.
spec fn of_flowing(order: Seq<int>, rules: Seq<ResizeSpec>) -> bool {
    forall|k: int|
        0 <= k < order.len() ==> 0 <= #[trigger] order[k] < rules.len() && flows(rules[order[k]])
}

/// Every flowing column is at most as wide as its content.
spec fn within_content(rules: Seq<ResizeSpec>, widths: Seq<usize>, naturals: Seq<usize>) -> bool {
    &&& widths.len() == rules.len()
    &&& naturals.len() == rules.len()
    &&& forall|i: int| 0 <= i < rules.len() && flows(#[trigger] rules[i]) ==> widths[i]
        <= naturals[i]
}

/// Every column of an order is as wide as its content.
spec fn satisfied(order: Seq<int>, widths: Seq<usize>, naturals: Seq<usize>) -> bool {
    forall|k: int| 0 <= k < order.len() ==> widths[#[trigger] order[k]] == naturals[order[k]]
}

/// Widening one flowing column widens the total by as much.
proof fn lemma_flow_total_widened(rules: Seq<ResizeSpec>, widths: Seq<usize>, i: int, n: int)
    requires
        0 <= i < rules.len(),
        0 <= n <= rules.len(),
        widths.len() == rules.len(),
        flows(rules[i]),
        widths[i] < usize::MAX,
    ensures
        flow_total(rules, widths.update(i, (widths[i] + 1) as usize), n) == flow_total(
            rules,
            widths,
            n,
        ) + if i < n {
            1nat
        } else {
            0
        },
    decreases n,
{
    if n > 0 {
        lemma_flow_total_widened(rules, widths, i, n - 1);
    }
}

proof fn lemma_one_round(
    rules: Seq<ResizeSpec>,
    widths: Seq<usize>,
    naturals: Seq<usize>,
    order: Seq<int>,
    left: nat,
)
    requires
        of_flowing(order, rules),
        within_content(rules, widths, naturals),
    ensures
        ({
            let (next, rest) = one_round(widths, naturals, order, left);
            let n = rules.len() as int;
            &&& rest <= left
            &&& within_content(rules, next, naturals)
            &&& forall|i: int|
                0 <= i < n && !flows(#[trigger] rules[i]) ==> next[i] == widths[i]
            &&& flow_total(rules, next, n) + rest == flow_total(rules, widths, n) + left
            &&& rest == left && left > 0 ==> satisfied(order, widths, naturals)
        }),
    decreases order.len(),
{
    if order.len() > 0 && left > 0 {
        let i = order[0];
        let later = order.drop_first();
        let n = rules.len() as int;
        assert forall|k: int| 0 <= k < later.len() implies 0 <= #[trigger] later[k] < n && flows(
            rules[later[k]],
        ) by {
            assert(later[k] == order[k + 1]);
        }
        if widths[i] < naturals[i] {
            let wider = widths.update(i, (widths[i] + 1) as usize);
            lemma_flow_total_widened(rules, widths, i, n);
            lemma_one_round(rules, wider, naturals, later, (left - 1) as nat);
        } else {
            lemma_one_round(rules, widths, naturals, later, left);
            if one_round(widths, naturals, later, left).1 == left {
                assert forall|k: int| 0 <= k < order.len() implies widths[#[trigger] order[k]]
                    == naturals[order[k]] by {
                    if k > 0 {
                        assert(later[k - 1] == order[k]);
                    }
                }
            }
        }
    }
}

proof fn lemma_handed_out(
    rules: Seq<ResizeSpec>,
    widths: Seq<usize>,
    naturals: Seq<usize>,
    order: Seq<int>,
    left: nat,
)
    requires
        of_flowing(order, rules),
        within_content(rules, widths, naturals),
    ensures
        ({
            let r = handed_out(widths, naturals, order, left);
            let n = rules.len() as int;
            &&& within_content(rules, r, naturals)
            &&& forall|i: int| 0 <= i < n && !flows(#[trigger] rules[i]) ==> r[i] == widths[i]
            &&& flow_total(rules, r, n) <= flow_total(rules, widths, n) + left
            &&& flow_total(rules, r, n) == flow_total(rules, widths, n) + left || satisfied(
                order,
                r,
                naturals,
            )
        }),
    decreases left,
{
    lemma_one_round(rules, widths, naturals, order, left);
    let (next, rest) = one_round(widths, naturals, order, left);
    if rest < left {
        lemma_handed_out(rules, next, naturals, order, rest);
    }
}

/// The base widths of flowing columns add up to no more than the room.
proof fn lemma_base_total(
    rules: Seq<ResizeSpec>,
    naturals: Seq<usize>,
    room: nat,
    total: nat,
    n: int,
)
    requires
        0 <= n <= rules.len(),
        rules.len() == naturals.len(),
        weight_total(rules, n) <= total,
        0 < total,
        small_shares(rules, room),
    ensures
        total * flow_total(rules, base_widths(rules, naturals, room, total), n) <= room
            * weight_total(rules, n),
    decreases n,
{
    let base = base_widths(rules, naturals, room, total);
    if n <= 0 {
        assert(total * 0 == 0) by (nonlinear_arith);
        assert(room * 0 == 0) by (nonlinear_arith);
    } else {
        let before = weight_total(rules, n - 1);
        assert(before <= weight_total(rules, n));
        lemma_base_total(rules, naturals, room, total, n - 1);
        match weight_of(rules[n - 1]) {
            Some(weight) => {
                let w = weight as nat;
                assert(room * w < HIGH);
                shares_of_small_amounts_are_accurate(room, w, total);
                let x = base[n - 1] as nat;
                assert(x <= room * w / total);
                assert(total * x <= room * w) by (nonlinear_arith)
                    requires
                        x <= room * w / total,
                        total > 0,
                ;
                let sum = flow_total(rules, base, n - 1);
                assert(total * (sum + x) == total * sum + total * x) by (nonlinear_arith);
                assert(room * (before + w) == room * before + room * w) by (nonlinear_arith);
            },
            None => {},
        }
    }
}

/// The number of widths is the number of columns, a column that does not flow is as wide as
/// its rule says, and a column that flows is never wider than its content.
pub proof fn widths_follow_the_rules(
    rules: Seq<ResizeSpec>,
    naturals: Seq<usize>,
    available: nat,
    gap: nat,
)
    requires
        rules.len() == naturals.len(),
    ensures
        ({
            let widths = solved_widths(rules, naturals, available, gap);
            &&& widths.len() == rules.len()
            &&& forall|i: int|
                0 <= i < rules.len() && !flows(#[trigger] rules[i]) ==> widths[i] == own_width(
                    rules[i],
                    naturals[i],
                )
            &&& forall|i: int|
                0 <= i < rules.len() && flows(#[trigger] rules[i]) ==> widths[i] <= naturals[i]
        }),
{
    let n = rules.len() as int;
    let space = room(rules, naturals, available, gap);
    let total = weight_total(rules, n);
    if flow_total(rules, naturals, n) > space {
        let base = base_widths(rules, naturals, space, total);
        let order = ranking(rules, space, total, n);
        let given = flow_total(rules, base, n);
        lemma_ranking(rules, space, total, n);
        lemma_handed_out(
            rules,
            base,
            naturals,
            order,
            if space >= given {
                (space - given) as nat
            } else {
                0
            },
        );
    }
}

/// Where there is room for the content of every flowing column, each is as wide as its
/// content.
pub proof fn columns_with_room_show_their_content(
    rules: Seq<ResizeSpec>,
    naturals: Seq<usize>,
    available: nat,
    gap: nat,
)
    requires
        rules.len() == naturals.len(),
        flow_total(rules, naturals, rules.len() as int) <= room(rules, naturals, available, gap),
    ensures
        forall|i: int|
            0 <= i < rules.len() && flows(#[trigger] rules[i]) ==> solved_widths(
                rules,
                naturals,
                available,
                gap,
            )[i] == naturals[i],
{
}

/// The room times the weight of any column fits into a significand.
pub open spec fn small_shares(rules: Seq<ResizeSpec>, room: nat) -> bool {
    forall|i: int|
        0 <= i < rules.len() ==> (weight_of(#[trigger] rules[i]) matches Some(weight) ==> room
            * weight < HIGH)
}

/// Where there is not room for the content of every flowing column, together they take all
/// the room there is and no more, unless their shares, as they are rounded, take more already.
pub proof fn flowing_columns_take_the_room_or_their_shares(
    rules: Seq<ResizeSpec>,
    naturals: Seq<usize>,
    available: nat,
    gap: nat,
)
    requires
        rules.len() == naturals.len(),
        flow_total(rules, naturals, rules.len() as int) > room(rules, naturals, available, gap),
    ensures
        ({
            let n = rules.len() as int;
            let space = room(rules, naturals, available, gap);
            let base = base_widths(rules, naturals, space, weight_total(rules, n));
            let given = flow_total(rules, base, n);
            flow_total(rules, solved_widths(rules, naturals, available, gap), n) == if given
                <= space {
                space
            } else {
                given
            }
        }),
{
    let n = rules.len() as int;
    let space = room(rules, naturals, available, gap);
    let total = weight_total(rules, n);
    let base = base_widths(rules, naturals, space, total);
    let order = ranking(rules, space, total, n);
    let given = flow_total(rules, base, n);
    lemma_ranking(rules, space, total, n);
    if given <= space {
        let left = (space - given) as nat;
        lemma_handed_out(rules, base, naturals, order, left);
        let r = handed_out(base, naturals, order, left);
        if satisfied(order, r, naturals) {
            assert forall|i: int| 0 <= i < n && flows(#[trigger] rules[i]) implies r[i]
                == naturals[i] by {
                let k = choose|k: int| 0 <= k < order.len() && order[k] == i;
                assert(order.contains(i));
                assert(r[order[k]] == naturals[order[k]]);
            }
            lemma_flow_total_same(rules, r, naturals, n);
        }
    }
}

/// Where there is not room for the content of every flowing column, together they take all
/// the room there is and no more, whatever their total weight, as long as the room times each
/// single weight fits into a significand.
pub proof fn flowing_columns_fill_the_room(
    rules: Seq<ResizeSpec>,
    naturals: Seq<usize>,
    available: nat,
    gap: nat,
)
    requires
        rules.len() == naturals.len(),
        flow_total(rules, naturals, rules.len() as int) > room(rules, naturals, available, gap),
        small_shares(rules, room(rules, naturals, available, gap)),
    ensures
        flow_total(rules, solved_widths(rules, naturals, available, gap), rules.len() as int)
            == room(rules, naturals, available, gap),
{
    let n = rules.len() as int;
    let space = room(rules, naturals, available, gap);
    let total = weight_total(rules, n);
    let given = flow_total(rules, base_widths(rules, naturals, space, total), n);
    lemma_weight_positive(rules, naturals, n);
    lemma_base_total(rules, naturals, space, total, n);
    assert(given <= space) by (nonlinear_arith)
        requires
            total * given <= space * total,
            total > 0,
    ;
    flowing_columns_take_the_room_or_their_shares(rules, naturals, available, gap);
}

/// The sum of the first `n` widths.
pub open spec fn width_total(widths: Seq<usize>, n: int) -> nat
    decreases n,
{
    if n <= 0 {
        0
    } else {
        width_total(widths, n - 1) + widths[n - 1] as nat
    }
}

/// The rule lets the column share the room, with the given weight.
pub open spec fn flows_by(rule: ResizeSpec, weight: int) -> bool {
    exists|side: TruncationSide, amount: usize|
        rule == (ResizeSpec::Truncate { side, mode: ResizeMode::Flow(amount) }) && weight == (
        if amount == 0 {
            1
        } else {
            amount as int
        })
}

/// A column shares the room if its rule is to flow, with the amount of that rule as its weight,
/// or one where the amount is nothing.
pub proof fn columns_flow_by_their_amount(rule: ResizeSpec)
    ensures
        weight_of(rule) matches Some(weight) ==> flows_by(rule, weight as int),
        forall|weight: int| #[trigger]
            flows_by(rule, weight) ==> weight_of(rule) == Some(weight as usize),
{
    match rule {
        ResizeSpec::Truncate { side, mode: ResizeMode::Flow(amount) } => {
            assert(rule == (ResizeSpec::Truncate { side, mode: ResizeMode::Flow(amount) }));
        },
        _ => {},
    }
}

/// The sum of the given widths over the columns among the first `n` whose rule is not to flow.
pub open spec fn others_total(rules: Seq<ResizeSpec>, widths: Seq<usize>, n: int) -> nat
    decreases n,
{
    if n <= 0 {
        0
    } else {
        others_total(rules, widths, n - 1) + match rules[n - 1] {
            ResizeSpec::Truncate { mode: ResizeMode::Flow(_), .. } => 0,
            _ => widths[n - 1] as nat,
        }
    }
}

/// All columns are the flowing ones and the others.
proof fn lemma_totals(rules: Seq<ResizeSpec>, widths: Seq<usize>, n: int)
    ensures
        width_total(widths, n) == others_total(rules, widths, n) + flow_total(rules, widths, n),
    decreases n,
{
    if n > 0 {
        lemma_totals(rules, widths, n - 1);
    }
}

proof fn lemma_own_total(rules: Seq<ResizeSpec>, naturals: Seq<usize>, widths: Seq<usize>, n: int)
    requires
        forall|i: int|
            0 <= i < n && !flows(#[trigger] rules[i]) ==> widths[i] == own_width(
                rules[i],
                naturals[i],
            ),
    ensures
        own_total(rules, naturals, n) == others_total(rules, widths, n),
    decreases n,
{
    if n > 0 {
        lemma_own_total(rules, naturals, widths, n - 1);
        assert(flows(rules[n - 1]) || !flows(rules[n - 1]));
    }
}

/// A column of rule `resize` is as wide as its content, one of a fixed width has just that
/// width, one with a hard limit is as wide as its content up to that limit, and one that flows
/// is never wider than its content.
pub proof fn columns_are_as_wide_as_their_rules_say(
    rules: Seq<ResizeSpec>,
    naturals: Seq<usize>,
    available: nat,
    gap: nat,
)
    requires
        rules.len() == naturals.len(),
    ensures
        ({
            let widths = solved_widths(rules, naturals, available, gap);
            &&& widths.len() == rules.len()
            &&& forall|i: int|
                0 <= i < rules.len() ==> match #[trigger] rules[i] {
                    ResizeSpec::Resize => widths[i] == naturals[i],
                    ResizeSpec::Truncate { mode: ResizeMode::Fixed(amount), .. } => widths[i]
                        == amount,
                    ResizeSpec::Truncate { mode: ResizeMode::Hard(limit), .. } => {
                        &&& widths[i] <= naturals[i]
                        &&& widths[i] <= limit
                        &&& widths[i] == naturals[i] || widths[i] == limit
                    },
                    ResizeSpec::Truncate { mode: ResizeMode::Flow(_), .. } => widths[i]
                        <= naturals[i],
                }
        }),
{
    widths_follow_the_rules(rules, naturals, available, gap);
    let widths = solved_widths(rules, naturals, available, gap);
    assert forall|i: int| 0 <= i < rules.len() implies match #[trigger] rules[i] {
        ResizeSpec::Resize => widths[i] == naturals[i],
        ResizeSpec::Truncate { mode: ResizeMode::Fixed(amount), .. } => widths[i] == amount,
        ResizeSpec::Truncate { mode: ResizeMode::Hard(limit), .. } => {
            &&& widths[i] <= naturals[i]
            &&& widths[i] <= limit
            &&& widths[i] == naturals[i] || widths[i] == limit
        },
        ResizeSpec::Truncate { mode: ResizeMode::Flow(_), .. } => widths[i] <= naturals[i],
    } by {
        assert(flows(rules[i]) || widths[i] == own_width(rules[i], naturals[i]));
    }
}

/// What the flowing columns share is the width of the list less the gaps and less the widths
/// that the other columns are given, or nothing where these take more than there is.
pub proof fn the_room_is_what_the_other_columns_leave(
    rules: Seq<ResizeSpec>,
    naturals: Seq<usize>,
    available: nat,
    gap: nat,
)
    requires
        rules.len() == naturals.len(),
        rules.len() > 0,
    ensures
        ({
            let n = rules.len() as int;
            let widths = solved_widths(rules, naturals, available, gap);
            let taken = others_total(rules, widths, n) + gap * (n - 1);
            let room = room(rules, naturals, available, gap);
            &&& taken <= available ==> room == available - taken
            &&& available <= taken ==> room == 0
        }),
{
    widths_follow_the_rules(rules, naturals, available, gap);
    lemma_own_total(
        rules,
        naturals,
        solved_widths(rules, naturals, available, gap),
        rules.len() as int,
    );
}

/// The widths of all columns and the gaps between them fill the list where the content of the
/// flowing columns does not fit into what the other columns leave of it, and fit into the list
/// where it does: every flowing column then shows its whole content. Where the other columns
/// leave nothing, flowing columns have no width. The width that is left times each single
/// weight has to fit into a significand.
pub proof fn columns_and_gaps_fit_the_list(
    rules: Seq<ResizeSpec>,
    naturals: Seq<usize>,
    available: nat,
    gap: nat,
)
    requires
        rules.len() == naturals.len(),
        rules.len() > 0,
    ensures
        ({
            let n = rules.len() as int;
            let widths = solved_widths(rules, naturals, available, gap);
            let gaps = gap * (n - 1);
            let taken = others_total(rules, widths, n) + gaps;
            let content = (width_total(naturals, n) - others_total(rules, naturals, n)) as nat;
            let left = if taken <= available {
                (available - taken) as nat
            } else {
                0
            };
            &&& content <= left ==> {
                &&& taken <= available ==> width_total(widths, n) + gaps <= available
                &&& forall|i: int, weight: int|
                    0 <= i < n && #[trigger] flows_by(rules[i], weight) ==> widths[i]
                        == naturals[i]
            }
            &&& content > left && (forall|i: int, weight: int|
                0 <= i < n && #[trigger] flows_by(rules[i], weight) ==> left * weight < HIGH) ==> {
                &&& taken <= available ==> width_total(widths, n) + gaps == available
                &&& available <= taken ==> forall|i: int, weight: int|
                    0 <= i < n && #[trigger] flows_by(rules[i], weight) ==> widths[i] == 0
            }
        }),
{
    let n = rules.len() as int;
    let widths = solved_widths(rules, naturals, available, gap);
    let gaps = gap * (n - 1);
    let taken = others_total(rules, widths, n) + gaps;
    let content = (width_total(naturals, n) - others_total(rules, naturals, n)) as nat;
    let left = room(rules, naturals, available, gap);
    the_room_is_what_the_other_columns_leave(rules, naturals, available, gap);
    lemma_totals(rules, widths, n);
    lemma_totals(rules, naturals, n);
    assert(content == flow_total(rules, naturals, n));
    if content <= left {
        columns_with_room_show_their_content(rules, naturals, available, gap);
        assert forall|i: int, weight: int|
            0 <= i < n && #[trigger] flows_by(rules[i], weight) implies widths[i] == naturals[i] by {
            assert(flows(rules[i]));
        }
        assert forall|i: int| 0 <= i < n && flows(#[trigger] rules[i]) implies widths[i]
            == naturals[i] by {
            columns_flow_by_their_amount(rules[i]);
        }
        lemma_flow_total_same(rules, widths, naturals, n);
    } else if forall|i: int, weight: int|
        0 <= i < n && #[trigger] flows_by(rules[i], weight) ==> left * weight < HIGH {
        assert forall|i: int| 0 <= i < n implies (weight_of(#[trigger] rules[i]) matches Some(
            weight,
        ) ==> left * weight < HIGH) by {
            columns_flow_by_their_amount(rules[i]);
        }
        flowing_columns_fill_the_room(rules, naturals, available, gap);
        if available <= taken {
            assert forall|i: int, weight: int|
                0 <= i < n && #[trigger] flows_by(rules[i], weight) implies widths[i] == 0 by {
                assert(flows(rules[i]));
                lemma_flow_total_holds(rules, widths, i, n);
            }
        }
    }
}

/// A flowing column is no wider than all of them together.
proof fn lemma_flow_total_holds(rules: Seq<ResizeSpec>, widths: Seq<usize>, i: int, n: int)
    requires
        0 <= i < n,
        flows(rules[i]),
    ensures
        widths[i] <= flow_total(rules, widths, n),
    decreases n,
{
    if i < n - 1 {
        lemma_flow_total_holds(rules, widths, i, n - 1);
    }
}

/// How many of the columns of a ranking one round comes to.
spec fn reached(widths: Seq<usize>, naturals: Seq<usize>, order: Seq<int>, left: nat) -> int
    decreases order.len(),
{
    if order.len() == 0 || left == 0 {
        0
    } else if widths[order[0]] < naturals[order[0]] {
        1 + reached(
            widths.update(order[0], (widths[order[0]] + 1) as usize),
            naturals,
            order.drop_first(),
            (left - 1) as nat,
        )
    } else {
        1 + reached(widths, naturals, order.drop_first(), left)
    }
}

/// A round widens just the columns that it comes to and that need it, and comes to all of them
/// unless nothing is left.
proof fn lemma_round_reaches(
    widths: Seq<usize>,
    naturals: Seq<usize>,
    order: Seq<int>,
    left: nat,
)
    requires
        order.no_duplicates(),
        widths.len() == naturals.len(),
        forall|k: int| 0 <= k < order.len() ==> 0 <= #[trigger] order[k] < widths.len(),
    ensures
        ({
            let (next, rest) = one_round(widths, naturals, order, left);
            let p = reached(widths, naturals, order, left);
            &&& next.len() == widths.len()
            &&& 0 <= p <= order.len()
            &&& rest > 0 ==> p == order.len()
            &&& forall|k: int|
                0 <= k < order.len() ==> next[#[trigger] order[k]] == widths[order[k]] + (if k < p
                    && widths[order[k]] < naturals[order[k]] {
                    1int
                } else {
                    0
                })
            &&& forall|i: int|
                0 <= i < widths.len() && !order.contains(i) ==> #[trigger] next[i] == widths[i]
        }),
    decreases order.len(),
{
    if order.len() > 0 && left > 0 {
        let i = order[0];
        let later = order.drop_first();
        let needs = widths[i] < naturals[i];
        let wider = if needs {
            widths.update(i, (widths[i] + 1) as usize)
        } else {
            widths
        };
        let less = if needs {
            (left - 1) as nat
        } else {
            left
        };
        assert forall|k: int| 0 <= k < later.len() implies 0 <= #[trigger] later[k]
            < widths.len() by {
            assert(later[k] == order[k + 1]);
        }
        lemma_round_reaches(wider, naturals, later, less);
        let (next, rest) = one_round(widths, naturals, order, left);
        let p = reached(widths, naturals, order, left);
        assert(p == 1 + reached(wider, naturals, later, less));
        assert(!later.contains(i));
        assert(next[i] == wider[i]);
        assert forall|k: int| 0 <= k < order.len() implies next[#[trigger] order[k]]
            == widths[order[k]] + (if k < p && widths[order[k]] < naturals[order[k]] {
            1int
        } else {
            0
        }) by {
            if k > 0 {
                assert(later[k - 1] == order[k]);
                assert(order[k] != i);
            }
        }
        assert forall|j: int|
            0 <= j < widths.len() && !order.contains(j) implies #[trigger] next[j] == widths[j] by {
            if later.contains(j) {
                let k = choose|k: int| 0 <= k < later.len() && later[k] == j;
                assert(order[k + 1] == j);
            }
            assert(order[0] == i);
            assert(j != i);
        }
    }
}

/// No column that still needs more was given less than another, but for one column of width
/// that those before it in the ranking may have more.
spec fn given_fairly(
    order: Seq<int>,
    before: Seq<usize>,
    after: Seq<usize>,
    naturals: Seq<usize>,
) -> bool {
    forall|k: int, l: int|
        0 <= k < order.len() && 0 <= l < order.len() && after[#[trigger] order[k]]
            < naturals[order[k]] ==> after[#[trigger] order[l]] - before[order[l]]
            <= after[order[k]] - before[order[k]] + (if l < k {
            1int
        } else {
            0
        })
}

proof fn lemma_given_fairly(
    widths: Seq<usize>,
    naturals: Seq<usize>,
    order: Seq<int>,
    left: nat,
)
    requires
        order.no_duplicates(),
        widths.len() == naturals.len(),
        forall|k: int| 0 <= k < order.len() ==> 0 <= #[trigger] order[k] < widths.len(),
    ensures
        given_fairly(order, widths, handed_out(widths, naturals, order, left), naturals),
        forall|k: int|
            0 <= k < order.len() ==> handed_out(widths, naturals, order, left)[#[trigger] order[k]]
                >= widths[order[k]],
    decreases left,
{
    lemma_round_reaches(widths, naturals, order, left);
    let (next, rest) = one_round(widths, naturals, order, left);
    let after = handed_out(widths, naturals, order, left);
    let p = reached(widths, naturals, order, left);
    if rest < left {
        lemma_given_fairly(next, naturals, order, rest);
        assert forall|k: int, l: int|
            0 <= k < order.len() && 0 <= l < order.len() && after[#[trigger] order[k]]
                < naturals[order[k]] implies after[#[trigger] order[l]] - widths[order[l]]
            <= after[order[k]] - widths[order[k]] + (if l < k {
            1int
        } else {
            0
        }) by {
            if rest == 0 {
                assert(one_round(next, naturals, order, 0).1 == 0);
                assert(after == next);
            }
        }
    }
}

/// One column comes before another where what is left over is handed out: the rest of its
/// share is greater, or they are equal and it stands first.
pub open spec fn served_first(rules: Seq<ResizeSpec>, room: nat, total: nat, j: int, i: int) -> bool {
    let a = rest_of_share(rules[j], room, total);
    let b = rest_of_share(rules[i], room, total);
    at_most(b, a) && (at_most(a, b) ==> j < i)
}

proof fn lemma_at_most_chains(a: (nat, nat), b: (nat, nat), c: (nat, nat))
    ensures
        at_most(a, b) && at_most(b, c) ==> at_most(a, c),
        at_most(a, b) || at_most(b, a),
{
    lemma_pow2_pos(a.1);
    lemma_pow2_pos(b.1);
    lemma_pow2_pos(c.1);
    if at_most(a, b) && at_most(b, c) {
        let (x, y, z) = (pow2(a.1), pow2(b.1), pow2(c.1));
        assert((a.0 * y) * z <= (b.0 * x) * z) by (nonlinear_arith)
            requires
                a.0 * y <= b.0 * x,
                z > 0,
        ;
        assert((b.0 * z) * x <= (c.0 * y) * x) by (nonlinear_arith)
            requires
                b.0 * z <= c.0 * y,
                x > 0,
        ;
        assert((b.0 * x) * z == (b.0 * z) * x) by (nonlinear_arith);
        assert((a.0 * z) * y <= (c.0 * x) * y) by (nonlinear_arith)
            requires
                (a.0 * y) * z <= (c.0 * y) * x,
        ;
        assert(a.0 * z <= c.0 * x) by (nonlinear_arith)
            requires
                (a.0 * z) * y <= (c.0 * x) * y,
                y > 0,
        ;
    }
}

/// A ranking is in order.
proof fn lemma_ranking_in_order(rules: Seq<ResizeSpec>, room: nat, total: nat, n: int)
    requires
        0 <= n <= rules.len(),
    ensures
        forall|k: int, l: int|
            0 <= k < l < ranking(rules, room, total, n).len() ==> served_first(
                rules,
                room,
                total,
                #[trigger] ranking(rules, room, total, n)[k],
                #[trigger] ranking(rules, room, total, n)[l],
            ),
    decreases n,
{
    if n > 0 {
        lemma_ranking_in_order(rules, room, total, n - 1);
        if flows(rules[n - 1]) {
            lemma_ranking(rules, room, total, n - 1);
            lemma_placed_in_order(
                rules,
                room,
                total,
                ranking(rules, room, total, n - 1),
                n - 1,
                |i: int| rest_of_share(rules[i], room, total),
            );
        }
    }
}

proof fn lemma_placed_in_order(
    rules: Seq<ResizeSpec>,
    room: nat,
    total: nat,
    order: Seq<int>,
    i: int,
    value: spec_fn(int) -> (nat, nat),
)
    requires
        value == (|i: int| rest_of_share(rules[i], room, total)),
        forall|k: int| 0 <= k < order.len() ==> #[trigger] order[k] < i,
        forall|k: int, l: int|
            0 <= k < l < order.len() ==> served_first(
                rules,
                room,
                total,
                #[trigger] order[k],
                #[trigger] order[l],
            ),
    ensures
        forall|k: int, l: int|
            0 <= k < l < placed(order, i, value).len() ==> served_first(
                rules,
                room,
                total,
                #[trigger] placed(order, i, value)[k],
                #[trigger] placed(order, i, value)[l],
            ),
    decreases order.len(),
{
    let after = placed(order, i, value);
    if order.len() == 0 || at_most(value(i), value(order.last())) {
        assert forall|k: int, l: int| 0 <= k < l < after.len() implies served_first(
            rules,
            room,
            total,
            #[trigger] after[k],
            #[trigger] after[l],
        ) by {
            if l == order.len() {
                let last = order.len() - 1;
                if k < last {
                    assert(served_first(rules, room, total, order[k], order[last]));
                    lemma_at_most_chains(value(i), value(order[last]), value(order[k]));
                }
            }
        }
    } else {
        let front = order.drop_last();
        let inner = placed(front, i, value);
        let last = order.len() - 1;
        lemma_placed_in_order(rules, room, total, front, i, value);
        lemma_placed(front, i, value);
        assert forall|k: int, l: int| 0 <= k < l < after.len() implies served_first(
            rules,
            room,
            total,
            #[trigger] after[k],
            #[trigger] after[l],
        ) by {
            if l == after.len() - 1 {
                assert(inner.contains(inner[k]));
                if inner[k] == i {
                    lemma_at_most_chains(value(i), value(order.last()), value(i));
                } else {
                    let j = choose|j: int| 0 <= j < front.len() && front[j] == inner[k];
                    assert(served_first(rules, room, total, order[j], order[last]));
                }
            } else {
                assert(served_first(rules, room, total, inner[k], inner[l]));
            }
        }
    }
}

/// Where the content of the flowing columns does not fit into what the other columns leave of
/// the list, each of them has at least the whole part of its share by weight, or all that it
/// needs. What is left over goes to them one by one: no column that needs more was given less
/// than another on top of that, but for one column of width that those served first may have
/// more.
pub proof fn flowing_columns_share_fairly(
    rules: Seq<ResizeSpec>,
    naturals: Seq<usize>,
    available: nat,
    gap: nat,
)
    requires
        rules.len() == naturals.len(),
        rules.len() > 0,
    ensures
        ({
            let n = rules.len() as int;
            let widths = solved_widths(rules, naturals, available, gap);
            let taken = others_total(rules, widths, n) + gap * (n - 1);
            let content = width_total(naturals, n) - others_total(rules, naturals, n);
            let left = if taken <= available {
                (available - taken) as nat
            } else {
                0
            };
            let total = weight_total(rules, n);
            let due = |i: int, weight: int| if left * weight / total as int <= naturals[i] {
                left * weight / total as int
            } else {
                naturals[i] as int
            };
            content > left && (forall|i: int, weight: int|
                0 <= i < n && #[trigger] flows_by(rules[i], weight) ==> left * weight < HIGH) ==> {
                &&& forall|i: int, weight: int|
                    0 <= i < n && #[trigger] flows_by(rules[i], weight) ==> widths[i] >= due(
                        i,
                        weight,
                    )
                &&& forall|i: int, j: int, a: int, b: int|
                    0 <= i < n && 0 <= j < n && #[trigger] flows_by(rules[i], a)
                        && #[trigger] flows_by(rules[j], b) && widths[i] < naturals[i]
                        ==> widths[j] - due(j, b) <= widths[i] - due(i, a) + (if served_first(
                        rules,
                        left,
                        total,
                        j,
                        i,
                    ) {
                        1int
                    } else {
                        0
                    })
            }
        }),
{
    let n = rules.len() as int;
    let widths = solved_widths(rules, naturals, available, gap);
    let left = room(rules, naturals, available, gap);
    let total = weight_total(rules, n);
    the_room_is_what_the_other_columns_leave(rules, naturals, available, gap);
    lemma_totals(rules, naturals, n);
    let due = |i: int, weight: int| if left * weight / total as int <= naturals[i] {
        left * weight / total as int
    } else {
        naturals[i] as int
    };
    if flow_total(rules, naturals, n) > left && (forall|i: int, weight: int|
        0 <= i < n && #[trigger] flows_by(rules[i], weight) ==> left * weight < HIGH) {
        let base = base_widths(rules, naturals, left, total);
        let given = flow_total(rules, base, n);
        let over = if left >= given {
            (left - given) as nat
        } else {
            0
        };
        let order = ranking(rules, left, total, n);
        lemma_weight_positive(rules, naturals, n);
        lemma_ranking(rules, left, total, n);
        lemma_ranking_in_order(rules, left, total, n);
        lemma_given_fairly(base, naturals, order, over);
        assert(widths == handed_out(base, naturals, order, over));
        assert forall|i: int, weight: int|
            0 <= i < n && #[trigger] flows_by(rules[i], weight) implies {
            &&& base[i] == due(i, weight)
            &&& widths[i] >= due(i, weight)
            &&& order.contains(i)
        } by {
            columns_flow_by_their_amount(rules[i]);
            shares_of_small_amounts_are_accurate(left, weight as nat, total);
            assert(order.contains(i));
            let k = choose|k: int| 0 <= k < order.len() && order[k] == i;
            assert(widths[order[k]] >= base[order[k]]);
        }
        assert forall|i: int, j: int, a: int, b: int|
            0 <= i < n && 0 <= j < n && #[trigger] flows_by(rules[i], a) && #[trigger] flows_by(
                rules[j],
                b,
            ) && widths[i] < naturals[i] implies widths[j] - due(j, b) <= widths[i] - due(i, a) + (
        if served_first(rules, left, total, j, i) {
            1int
        } else {
            0
        }) by {
            assert(order.contains(i) && order.contains(j));
            let k = choose|k: int| 0 <= k < order.len() && order[k] == i;
            let l = choose|l: int| 0 <= l < order.len() && order[l] == j;
            assert(widths[order[k]] < naturals[order[k]]);
            assert(widths[order[l]] - base[order[l]] <= widths[order[k]] - base[order[k]] + (if l
                < k {
                1int
            } else {
                0
            }));
            if l < k {
                assert(served_first(rules, left, total, order[l], order[k]));
            }
        }
    }
}

} // verus!
