//! The widths of columns, and cells fitted to them.
use vstd::multiset::Multiset;
use vstd::prelude::*;

use crate::map::Record;
use crate::numbers::NumberMap;
use crate::style::{
    clipped_end, clipped_start, clipping_the_end_keeps_a_beginning,
    clipping_the_start_keeps_an_ending, extending_joins_glyphs, gathering_keeps_glyphs, glyphs,
    glyphs_columns, head_fit, lemma_head_fit, lemma_tail_fit, marker, measured, narrow_glyphs,
    paint, plain_style, push_run, pushing_adds_glyphs, runs_width, tail_fit, truncated_end,
    truncated_start, Glyph, Run, StyledText,
};
use crate::text::{
    all_white, blanks_around_a_text_are_trimmed, chars_of, decimal, digit_value, fields, joined,
    lemma_decimal, lemma_trimmed_same, number, number_reads_decimal, outcome, parse_number, pieces,
    put_between, spells, split, texts_are_cut_where_they_were_joined, trim, trimmed,
};
use crate::width::text_width;

verus! {

// ---------------------------------------------------------------------------------------
// Resize rules
// ---------------------------------------------------------------------------------------

/// The end at which a text that is too wide is cut.
#[derive(Debug, Clone, Copy, PartialEq, Eq, Structural)]
pub enum TruncationSide {
    Start,
    End,
}

/// How the width of a column that truncates is found: at most so wide, exactly so wide, or a
/// share of the room by weight.
#[derive(Debug, Clone, Copy, PartialEq, Eq, Structural)]
pub enum ResizeMode {
    Hard(usize),
    Fixed(usize),
    Flow(usize),
}

/// How a column gets its width.
#[derive(Debug, Clone, Copy, PartialEq, Eq, Structural)]
pub enum ResizeSpec {
    Resize,
    Truncate { side: TruncationSide, mode: ResizeMode },
}

/// The greater of a number and one.
pub open spec fn at_least_one(n: usize) -> usize {
    if n == 0 {
        1
    } else {
        n
    }
}

/// The piece at a position, or nothing where there is none.
pub open spec fn piece(parts: Seq<Seq<char>>, i: int) -> Seq<char> {
    if 0 <= i < parts.len() {
        parts[i]
    } else {
        Seq::empty()
    }
}

/// The side that a word names.
pub open spec fn side_named(word: Seq<char>) -> Option<TruncationSide> {
    if word == "start"@ {
        Some(TruncationSide::Start)
    } else if word == "end"@ {
        Some(TruncationSide::End)
    } else {
        None
    }
}

/// The mode that a word names.
pub open spec fn mode_named(word: Seq<char>, amount: usize) -> Option<ResizeMode> {
    if word == "hard"@ {
        Some(ResizeMode::Hard(amount))
    } else if word == "fixed"@ {
        Some(ResizeMode::Fixed(amount))
    } else if word == "flow"@ {
        Some(ResizeMode::Flow(at_least_one(amount)))
    } else {
        None
    }
}

/// The rule that a text stands for: `resize`, or `trunc`, side, mode and amount with colons
/// between them. Otherwise what is wrong with it.
pub open spec fn resize_rule(text: Seq<char>) -> Result<ResizeSpec, Seq<char>> {
    let input = trimmed(text);
    let parts = fields(input, ':');
    let amount = number(piece(parts, 3), 10, usize::MAX as int);
    if input == "resize"@ {
        Ok(ResizeSpec::Resize)
    } else if piece(parts, 0) != "trunc"@ || parts.len() > 4 {
        Err("invalid resize spec `"@ + input + "`"@)
    } else {
        match side_named(piece(parts, 1)) {
            None => Err("invalid truncation side `"@ + piece(parts, 1) + "`"@),
            Some(side) => match amount {
                None => Err("invalid resize amount `"@ + piece(parts, 3) + "`"@),
                Some(n) => match mode_named(piece(parts, 2), n as usize) {
                    None => Err("invalid resize mode `"@ + piece(parts, 2) + "`"@),
                    Some(mode) => Ok(ResizeSpec::Truncate { side, mode }),
                },
            },
        }
    }
}

fn piece_at<'a>(parts: &Vec<&'a [char]>, i: usize, nothing: &'a [char]) -> (r: &'a [char])
    requires
        nothing@.len() == 0,
    ensures
        r@ == piece(pieces(parts@), i as int),
{
    if i < parts.len() {
        parts[i]
    } else {
        assert(nothing@ =~= Seq::<char>::empty());
        nothing
    }
}

impl ResizeSpec {
    pub(crate) fn parse_chars(text: &[char]) -> (r: Result<Self, String>)
        ensures
            outcome(r) == resize_rule(text@),
    {
        let input = trim(text);
        if spells(input, "resize") {
            return Ok(ResizeSpec::Resize);
        }
        let nothing: Vec<char> = Vec::new();
        let parts = split(input, ':');
        let prefix = piece_at(&parts, 0, nothing.as_slice());
        let side = piece_at(&parts, 1, nothing.as_slice());
        let mode = piece_at(&parts, 2, nothing.as_slice());
        let amount = piece_at(&parts, 3, nothing.as_slice());
        assert(pieces(parts@).len() == parts.len());
        if !spells(prefix, "trunc") || parts.len() > 4 {
            return Err(joined("invalid resize spec `", input, "`"));
        }
        let side = if spells(side, "start") {
            TruncationSide::Start
        } else if spells(side, "end") {
            TruncationSide::End
        } else {
            return Err(joined("invalid truncation side `", side, "`"));
        };
        let amount: usize = match parse_number(amount, 10, usize::MAX as u64) {
            Some(n) => n as usize,
            None => {
                return Err(joined("invalid resize amount `", amount, "`"));
            },
        };
        let mode = if spells(mode, "hard") {
            ResizeMode::Hard(amount)
        } else if spells(mode, "fixed") {
            ResizeMode::Fixed(amount)
        } else if spells(mode, "flow") {
            ResizeMode::Flow(if amount == 0 { 1 } else { amount })
        } else {
            return Err(joined("invalid resize mode `", mode, "`"));
        };
        Ok(ResizeSpec::Truncate { side, mode })
    }

    /// Reads a resize rule.
    pub fn parse(input: &str) -> (r: Result<Self, String>)
        ensures
            outcome(r) == resize_rule(input@),
    {
        ResizeSpec::parse_chars(chars_of(input).as_slice())
    }

    /// The weight by which a column shares the room with others, where it does.
    pub fn flow_weight(self) -> (r: Option<usize>)
        ensures
            r == weight_of(self),
    {
        match self {
            ResizeSpec::Truncate { mode: ResizeMode::Flow(weight), .. } => Some(
                if weight == 0 {
                    1
                } else {
                    weight
                },
            ),
            _ => None,
        }
    }
}

/// The weight by which a column shares the room with others, where it does.
pub open spec fn weight_of(rule: ResizeSpec) -> Option<usize> {
    match rule {
        ResizeSpec::Truncate { mode: ResizeMode::Flow(weight), .. } => Some(at_least_one(weight)),
        _ => None,
    }
}

/// The width of a column that does not share the room with others; that of its content for
/// one that does.
pub open spec fn own_width(rule: ResizeSpec, natural: usize) -> usize {
    match rule {
        ResizeSpec::Resize => natural,
        ResizeSpec::Truncate { mode: ResizeMode::Hard(limit), .. } => if natural <= limit {
            natural
        } else {
            limit
        },
        ResizeSpec::Truncate { mode: ResizeMode::Fixed(limit), .. } => limit,
        ResizeSpec::Truncate { mode: ResizeMode::Flow(_), .. } => natural,
    }
}

/// The width of a column that does not share the room with others; that of its content for
/// one that does.
pub(crate) fn width_alone(rule: ResizeSpec, natural: usize) -> (r: usize)
    ensures
        r == own_width(rule, natural),
{
    match rule {
        ResizeSpec::Resize => natural,
        ResizeSpec::Truncate { mode: ResizeMode::Hard(limit), .. } => if natural <= limit {
            natural
        } else {
            limit
        },
        ResizeSpec::Truncate { mode: ResizeMode::Fixed(limit), .. } => limit,
        ResizeSpec::Truncate { mode: ResizeMode::Flow(_), .. } => natural,
    }
}

// ---------------------------------------------------------------------------------------
// Width index
// ---------------------------------------------------------------------------------------

/// The widths of the cells of a column, for the greatest of them: how often each occurs.
#[derive(Debug)]
pub struct WidthIndex {
    counts: NumberMap<usize>,
}

/// The widths that are counted.
spec fn counted(counts: Map<usize, usize>) -> Multiset<usize> {
    Multiset::from_map(counts.map_values(|n: usize| n as nat))
}

/// No width is counted that does not occur.
spec fn all_occur(counts: Map<usize, usize>) -> bool {
    forall|w: usize| #[trigger] counts.contains_key(w) ==> counts[w] > 0
}

/// A width occurs as often as it is counted.
proof fn lemma_counted(counts: Map<usize, usize>)
    requires
        counts.dom().finite(),
    ensures
        forall|w: usize| #[trigger]
            counted(counts).count(w) == if counts.contains_key(w) {
                counts[w] as nat
            } else {
                0
            },
{
    let m = counts.map_values(|n: usize| n as nat);
    assert(m.dom() =~= counts.dom());
}

impl View for WidthIndex {
    type V = Multiset<usize>;

    closed spec fn view(&self) -> Multiset<usize> {
        counted(self.counts@)
    }
}

impl Default for WidthIndex {
    fn default() -> (r: Self)
        ensures
            r@ == Multiset::<usize>::empty(),
    {
        let r = WidthIndex { counts: NumberMap::new() };
        proof {
            lemma_counted(r.counts@);
            assert(r@ =~= Multiset::<usize>::empty());
        }
        r
    }
}

/// A width that occurs, and no greater one does.
pub open spec fn is_greatest(w: usize, widths: Multiset<usize>) -> bool {
    widths.count(w) > 0 && forall|v: usize| #[trigger] widths.count(v) > 0 ==> v <= w
}

/// The greatest width; zero where there is none.
pub open spec fn greatest(widths: Multiset<usize>) -> usize {
    if widths.len() == 0 {
        0
    } else {
        choose|w: usize| is_greatest(w, widths)
    }
}

impl Clone for WidthIndex {
    fn clone(&self) -> (r: Self)
        ensures
            r@ == self@,
    {
        proof {
            use_type_invariant(self);
        }
        WidthIndex { counts: self.counts.duplicate() }
    }
}

impl Record for WidthIndex {
    fn duplicate(&self) -> (r: Self) {
        self.clone()
    }

    fn agrees(&self, other: &Self) -> (r: bool) {
        proof {
            use_type_invariant(self);
            use_type_invariant(other);
            self.counts.lemma_finite();
            other.counts.lemma_finite();
            lemma_counted(self.counts@);
            lemma_counted(other.counts@);
            if self@ == other@ {
                assert forall|w: usize| #[trigger] self.counts@.contains_key(w)
                    == other.counts@.contains_key(w) && (self.counts@.contains_key(w)
                    ==> self.counts@[w] == other.counts@[w]) by {
                    assert(self@.count(w) == other@.count(w));
                }
                assert(self.counts@ =~= other.counts@);
            }
        }
        self.counts.agrees(&other.counts)
    }
}

impl PartialEq for WidthIndex {
    fn eq(&self, other: &Self) -> (r: bool) {
        self.agrees(other)
    }
}

impl vstd::std_specs::cmp::PartialEqSpecImpl for WidthIndex {
    open spec fn obeys_eq_spec() -> bool {
        true
    }

    open spec fn eq_spec(&self, other: &Self) -> bool {
        self@ == other@
    }
}

impl Eq for WidthIndex {

}

impl WidthIndex {
    #[verifier::type_invariant]
    spec fn well_formed(self) -> bool {
        all_occur(self.counts@)
    }

    /// Takes out one width, where one was given, and puts in another.
    pub fn replace(&mut self, old_width: Option<usize>, new_width: usize)
        requires
            (match old_width {
                Some(w) => old(self)@.remove(w),
                None => old(self)@,
            }).count(new_width) < usize::MAX,
        ensures
            final(self)@ == match old_width {
                Some(w) => old(self)@.remove(w).insert(new_width),
                None => old(self)@.insert(new_width),
            },
    {
        if let Some(old_width) = old_width {
            self.remove(old_width);
        }
        self.add(new_width);
    }

    /// Takes out one occurrence of a width, where there is one.
    pub fn remove(&mut self, width: usize)
        ensures
            final(self)@ == old(self)@.remove(width),
    {
        proof {
            use_type_invariant(&*self);
            self.counts.lemma_finite();
            lemma_counted(self.counts@);
        }
        let mut counts: NumberMap<usize> = NumberMap::new();
        std::mem::swap(&mut counts, &mut self.counts);
        let ghost before = counts@;
        let count: usize = match counts.get(width) {
            Some(count) => *count,
            None => 0,
        };
        if count > 1 {
            counts.insert(width, count - 1);
        } else {
            counts.remove(width);
        }
        proof {
            counts.lemma_finite();
            lemma_counted(counts@);
            assert(counted(counts@) =~= counted(before).remove(width));
        }
        self.counts = counts;
    }

    /// The greatest width; zero where there is none.
    pub fn max(&self) -> (r: usize)
        ensures
            r == greatest(self@),
            self@.len() == 0 ==> r == 0,
            self@.len() > 0 ==> is_greatest(r, self@),
    {
        proof {
            use_type_invariant(self);
            self.counts.lemma_finite();
            lemma_counted(self.counts@);
        }
        let widths = self.counts.keys();
        let mut r: usize = 0;
        let mut i: usize = 0;
        while i < widths.len()
            invariant
                i <= widths.len(),
                forall|j: int| 0 <= j < i ==> #[trigger] widths@[j] <= r,
                i == 0 ==> r == 0,
                i > 0 ==> widths@.contains(r),
            decreases widths.len() - i,
        {
            if i == 0 || widths[i] > r {
                r = widths[i];
            }
            i = i + 1;
        }
        proof {
            if widths@.len() == 0 {
                assert forall|w: usize| self@.count(w) == 0 by {
                    assert(widths@.contains(w) == self.counts@.contains_key(w));
                }
                assert(self@ =~= Multiset::<usize>::empty());
            } else {
                assert(self.counts@.contains_key(r));
                assert(self@.count(r) > 0);
                assert forall|w: usize| #[trigger] self@.count(w) > 0 implies w <= r by {
                    assert(widths@.contains(w));
                    let j = widths@.index_of(w);
                    assert(widths@[j] <= r);
                }
                assert(is_greatest(r, self@));
                let g = greatest(self@);
                assert(is_greatest(g, self@));
                assert(self@.count(g) > 0 && self@.count(r) > 0);
            }
        }
        r
    }

    fn add(&mut self, width: usize)
        requires
            old(self)@.count(width) < usize::MAX,
        ensures
            final(self)@ == old(self)@.insert(width),
    {
        proof {
            use_type_invariant(&*self);
            self.counts.lemma_finite();
            lemma_counted(self.counts@);
        }
        let mut counts: NumberMap<usize> = NumberMap::new();
        std::mem::swap(&mut counts, &mut self.counts);
        let ghost before = counts@;
        let count: usize = match counts.get(width) {
            Some(count) => *count,
            None => 0,
        };
        counts.insert(width, count + 1);
        proof {
            counts.lemma_finite();
            lemma_counted(counts@);
            assert(counted(counts@) =~= counted(before).insert(width));
        }
        self.counts = counts;
    }
}

// ---------------------------------------------------------------------------------------
// Fitting cells
// ---------------------------------------------------------------------------------------

/// Runs that take at most the given columns, measured as a whole or character by character.
pub open spec fn fills_at_most(runs: Seq<Run>, width: nat) -> bool {
    measured(runs) && runs_width(runs) <= width
}

/// The runs of a cell in a column of the given width: what is too wide is cut as the rule of
/// the column says.
pub open spec fn fitted(runs: Seq<Run>, rule: ResizeSpec, width: nat) -> Seq<Run> {
    if width == 0 {
        Seq::empty()
    } else if runs_width(runs) <= width {
        runs
    } else {
        match rule {
            ResizeSpec::Resize => clipped_end(runs, width),
            ResizeSpec::Truncate { side: TruncationSide::Start, .. } => truncated_start(
                runs,
                width,
            ),
            ResizeSpec::Truncate { side: TruncationSide::End, .. } => truncated_end(runs, width),
        }
    }
}

/// Fitting a narrow text to a column leaves it narrow: the marker is narrow too.
pub proof fn fitting_keeps_text_narrow(runs: Seq<Run>, rule: ResizeSpec, width: nat)
    requires
        narrow_glyphs(glyphs(runs)),
    ensures
        narrow_glyphs(glyphs(fitted(runs, rule, width))),
{
    let g = glyphs(runs);
    let room = (width - text_width(marker())) as nat;
    let mark = paint(marker(), plain_style());
    reveal_strlit("\u{2026}");
    clipping_the_end_keeps_a_beginning(runs, width);
    clipping_the_end_keeps_a_beginning(runs, room);
    clipping_the_start_keeps_an_ending(runs, room);
    pushing_adds_glyphs(Seq::empty(), marker(), plain_style());
    pushing_adds_glyphs(clipped_end(runs, room), marker(), plain_style());
    extending_joins_glyphs(
        push_run(Seq::empty(), marker(), plain_style()),
        clipped_start(runs, room),
    );
    assert(narrow_glyphs(mark));
    assert(glyphs(Seq::<Run>::empty()) + mark =~= mark);
}

/// Cuts a text that is too wide for its column, and measures it then.
pub(crate) fn fit_and_measure(text: &StyledText, resize_spec: ResizeSpec, width: usize) -> (r: (
    StyledText,
    u128,
))
    ensures
        r.0@ == fitted(text@, resize_spec, width as nat),
        r.1 == runs_width(r.0@),
        runs_width(text@) > width ==> glyphs_columns(glyphs(r.0@)) <= width,
        narrow_glyphs(glyphs(text@)) ==> fills_at_most(r.0@, width as nat),
{
    proof {
        if narrow_glyphs(glyphs(text@)) {
            fitting_keeps_text_narrow(text@, resize_spec, width as nat);
        }
    }
    if width == 0 {
        return (StyledText::new(), 0);
    }
    let taken: u128 = text.wide_width();
    if taken <= width as u128 {
        return (text.duplicate(), taken);
    }
    let cut = match resize_spec {
        ResizeSpec::Resize => {
            proof {
                clipping_the_end_keeps_a_beginning(text@, width as nat);
            }
            text.clip_end(width)
        },
        ResizeSpec::Truncate { side: TruncationSide::Start, .. } => text.truncate_start(width),
        ResizeSpec::Truncate { side: TruncationSide::End, .. } => text.truncate_end(width),
    };
    let taken: u128 = cut.wide_width();
    (cut, taken)
}

/// Cuts a text that is too wide for its column. A narrow text then takes no more than the width
/// of the column, measured as a whole or character by character.
pub fn fit_cell_to_width(text: &StyledText, resize_spec: ResizeSpec, width: usize) -> (r:
    StyledText)
    ensures
        r@ == fitted(text@, resize_spec, width as nat),
        runs_width(text@) > width ==> glyphs_columns(glyphs(r@)) <= width,
        narrow_glyphs(glyphs(text@)) ==> runs_width(r@) == glyphs_columns(glyphs(r@)) <= width,
{
    fit_and_measure(text, resize_spec, width).0
}

/// Keeps what fits into the given columns at the front.
pub fn clip_right_edge(text: &StyledText, width: usize) -> (r: StyledText)
    ensures
        r@ == clipped_end(text@, width as nat),
        narrow_glyphs(glyphs(text@)) ==> measured(r@) && runs_width(r@) <= width,
{
    text.clip_end(width)
}

// ---------------------------------------------------------------------------------------
// Laws
// ---------------------------------------------------------------------------------------

/// A rule that is written as the side, the mode and the amount of a truncation, with colons
/// between them, is read as just that; a column that flows by nothing flows by one.
pub proof fn truncations_are_read_back(side: TruncationSide, mode: ResizeMode)
    ensures
        ({
            let (word, amount) = match mode {
                ResizeMode::Hard(n) => ("hard"@, n),
                ResizeMode::Fixed(n) => ("fixed"@, n),
                ResizeMode::Flow(n) => ("flow"@, n),
            };
            let end = match side {
                TruncationSide::Start => "start"@,
                TruncationSide::End => "end"@,
            };
            resize_rule(put_between(seq!["trunc"@, end, word, decimal(amount as nat)], ':')) == Ok::<
                ResizeSpec,
                Seq<char>,
            >(
                ResizeSpec::Truncate {
                    side,
                    mode: match mode {
                        ResizeMode::Flow(0) => ResizeMode::Flow(1),
                        _ => mode,
                    },
                },
            )
        }),
{
    let (word, amount) = match mode {
        ResizeMode::Hard(n) => ("hard"@, n),
        ResizeMode::Fixed(n) => ("fixed"@, n),
        ResizeMode::Flow(n) => ("flow"@, n),
    };
    let end = match side {
        TruncationSide::Start => "start"@,
        TruncationSide::End => "end"@,
    };
    let digits = decimal(amount as nat);
    let parts = seq!["trunc"@, end, word, digits];
    let text = put_between(parts, ':');
    reveal_strlit("trunc");
    reveal_strlit("resize");
    reveal_strlit("start");
    reveal_strlit("end");
    reveal_strlit("hard");
    reveal_strlit("fixed");
    reveal_strlit("flow");
    lemma_decimal(amount as nat);
    number_reads_decimal(amount as nat, usize::MAX as int);
    assert forall|i: int| 0 <= i < parts.len() implies !(#[trigger] parts[i]).contains(':') by {
        if i == 3 {
            if digits.contains(':') {
                let k = choose|k: int| 0 <= k < digits.len() && digits[k] == ':';
                assert(digit_value(digits[k], 10) is Some);
            }
        }
    }
    texts_are_cut_where_they_were_joined(parts, ':');
    reveal_with_fuel(put_between, 4);
    let later = parts.drop_first();
    let last = later.drop_first();
    assert(later =~= seq![end, word, digits]);
    assert(last =~= seq![word, digits]);
    assert(last.drop_first() =~= seq![digits]);
    assert(put_between(last.drop_first(), ':') == digits);
    assert(text =~= "trunc"@.push(':') + (end.push(':') + (word.push(':') + digits)));
    assert(digit_value(digits.last(), 10) is Some);
    assert(text[0] == 't' && text.last() == digits.last());
    lemma_trimmed_same(text);
    assert("resize"@[0] == 'r');
    assert(parts[0] == "trunc"@ && parts[1] == end && parts[2] == word && parts[3] == digits);
    assert("start"@.len() != "end"@.len());
    assert("hard"@[0] == 'h' && "fixed"@[0] == 'f' && "fixed"@[1] == 'i' && "flow"@[1] == 'l');
}

/// Blanks around a rule change nothing, and `resize` alone is a rule.
pub proof fn blanks_around_a_rule_change_nothing(
    before: Seq<char>,
    text: Seq<char>,
    behind: Seq<char>,
)
    requires
        all_white(before),
        all_white(behind),
    ensures
        resize_rule(before + text + behind) == resize_rule(text),
        resize_rule("resize"@) == Ok::<ResizeSpec, Seq<char>>(ResizeSpec::Resize),
{
    blanks_around_a_text_are_trimmed(before, text, behind);
    reveal_strlit("resize");
    assert("resize"@[0] == 'r' && "resize"@.last() == 'e');
    lemma_trimmed_same("resize"@);
}

/// The first characters of a cell, as many as fit into the given columns.
pub open spec fn fills_from_the_start(g: Seq<Glyph>, k: int, room: nat) -> bool {
    &&& 0 <= k <= g.len()
    &&& glyphs_columns(g.take(k)) <= room
    &&& k < g.len() ==> glyphs_columns(g.take(k)) == room || glyphs_columns(g.take(k + 1)) > room
}

/// The last characters of a cell, as many as fit into the given columns.
pub open spec fn fills_from_the_end(g: Seq<Glyph>, k: int, room: nat) -> bool {
    &&& 0 <= k <= g.len()
    &&& glyphs_columns(g.skip(k)) <= room
    &&& 0 < k ==> glyphs_columns(g.skip(k)) == room || glyphs_columns(g.skip(k - 1)) > room
}

/// A cell that fits into its column is shown as it is. Of one that does not, a column that
/// truncates shows as much as fits beside the mark that something is left out: the beginning
/// before the mark, or the end behind it, as its rule says, or only the mark where there is room
/// for no more. A column of rule `resize` shows the beginning without a mark. Each character that
/// is shown keeps its style.
pub proof fn cells_are_cut_as_their_rule_says(runs: Seq<Run>, rule: ResizeSpec, width: nat)
    requires
        width > 0,
    ensures
        ({
            let g = glyphs(runs);
            let shown = glyphs(fitted(runs, rule, width));
            let mark = paint("\u{2026}"@, plain_style());
            let taken = text_width("\u{2026}"@);
            &&& runs_width(runs) <= width ==> fitted(runs, rule, width) == runs
            &&& runs_width(runs) > width ==> match rule {
                ResizeSpec::Resize => exists|k: int|
                    shown == #[trigger] g.take(k) && fills_from_the_start(g, k, width),
                ResizeSpec::Truncate { side: TruncationSide::End, .. } => if width <= taken {
                    shown == mark
                } else {
                    exists|k: int|
                        shown == #[trigger] g.take(k) + mark && fills_from_the_start(
                            g,
                            k,
                            (width - taken) as nat,
                        )
                },
                ResizeSpec::Truncate { side: TruncationSide::Start, .. } => if width <= taken {
                    shown == mark
                } else {
                    exists|k: int|
                        shown == mark + #[trigger] g.skip(k) && fills_from_the_end(
                            g,
                            k,
                            (width - taken) as nat,
                        )
                },
            }
        }),
        fitted(runs, rule, 0) == Seq::<Run>::empty(),
{
    let g = glyphs(runs);
    let shown = glyphs(fitted(runs, rule, width));
    let mark = paint("\u{2026}"@, plain_style());
    let taken = text_width("\u{2026}"@);
    let alone = push_run(Seq::empty(), marker(), plain_style());
    pushing_adds_glyphs(Seq::empty(), marker(), plain_style());
    assert(glyphs(Seq::<Run>::empty()) + mark =~= mark);
    if runs_width(runs) > width {
        let room = (width - taken) as nat;
        match rule {
            ResizeSpec::Resize => {
                let k = head_fit(g, width) as int;
                lemma_head_fit(g, width);
                gathering_keeps_glyphs(g.take(k));
                assert(shown == g.take(k) && fills_from_the_start(g, k, width));
            },
            ResizeSpec::Truncate { side: TruncationSide::End, .. } => {
                if width > taken {
                    let k = head_fit(g, room) as int;
                    lemma_head_fit(g, room);
                    gathering_keeps_glyphs(g.take(k));
                    pushing_adds_glyphs(clipped_end(runs, room), marker(), plain_style());
                    assert(shown == g.take(k) + mark && fills_from_the_start(g, k, room));
                }
            },
            ResizeSpec::Truncate { side: TruncationSide::Start, .. } => {
                if width > taken {
                    let k = g.len() - tail_fit(g, room);
                    lemma_tail_fit(g, room);
                    gathering_keeps_glyphs(g.skip(k));
                    extending_joins_glyphs(alone, clipped_start(runs, room));
                    assert(shown == mark + g.skip(k) && fills_from_the_end(g, k, room));
                }
            },
        }
    }
}

} // verus!
