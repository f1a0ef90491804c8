//! Colours, inline styles and styled text.
use vstd::prelude::*;
use vstd::slice::slice_subrange;

use crate::map::Record;
use crate::text::{chars_of, decimal, decimal_string};
use crate::width::{columns, columns_of, measure, narrow, narrow_text, text_columns, text_width};

verus! {

// ---------------------------------------------------------------------------------------
// Colours and styles
// ---------------------------------------------------------------------------------------

/// A terminal colour.
#[derive(Debug, Clone, Copy, PartialEq, Eq, Structural)]
pub enum ColorSpec {
    Default,
    EightBit(u8),
    Rgb(u8, u8, u8),
}

impl Default for ColorSpec {
    fn default() -> (r: Self)
        ensures
            r == ColorSpec::Default,
    {
        ColorSpec::Default
    }
}

/// `lead`, then the numbers of a colour separated by `;`, then `m`; nothing for the default.
pub open spec fn color_code(color: ColorSpec, lead: Seq<char>) -> Seq<char> {
    match color {
        ColorSpec::Default => Seq::empty(),
        ColorSpec::EightBit(n) => lead + "5;"@ + decimal(n as nat) + "m"@,
        ColorSpec::Rgb(r, g, b) => lead + "2;"@ + decimal(r as nat) + ";"@ + decimal(g as nat)
            + ";"@ + decimal(b as nat) + "m"@,
    }
}

fn color_sequence(color: ColorSpec, lead: &str) -> (r: String)
    ensures
        r@ == color_code(color, lead@),
{
    let mut out = String::new();
    match color {
        ColorSpec::Default => {},
        ColorSpec::EightBit(n) => {
            out.append(lead);
            out.append("5;");
            out.append(decimal_string(n as u64).as_str());
            out.append("m");
            assert(out@ =~= color_code(color, lead@));
        },
        ColorSpec::Rgb(r, g, b) => {
            out.append(lead);
            out.append("2;");
            out.append(decimal_string(r as u64).as_str());
            out.append(";");
            out.append(decimal_string(g as u64).as_str());
            out.append(";");
            out.append(decimal_string(b as u64).as_str());
            out.append("m");
            assert(out@ =~= color_code(color, lead@));
        },
    }
    out
}

impl ColorSpec {
    /// The escape sequence that selects this colour for text.
    pub fn to_ansi_fg(self) -> (r: String)
        ensures
            r@ == color_code(self, "\x1b[38;"@),
    {
        color_sequence(self, "\x1b[38;")
    }

    /// The escape sequence that selects this colour for the background.
    pub fn to_ansi_bg(self) -> (r: String)
        ensures
            r@ == color_code(self, "\x1b[48;"@),
    {
        color_sequence(self, "\x1b[48;")
    }

    /// Whether this is the terminal's own colour.
    pub fn is_default(self) -> (r: bool)
        ensures
            r == (self == ColorSpec::Default),
    {
        match self {
            ColorSpec::Default => true,
            _ => false,
        }
    }
}

/// How a run of text looks.
#[derive(Debug, Clone, Copy, PartialEq, Eq, Structural)]
pub struct InlineStyle {
    pub fg: ColorSpec,
    pub bg: ColorSpec,
    pub bold: bool,
    pub dim: bool,
    pub fill: bool,
}

/// The style of text that nothing was said about.
pub open spec fn plain_style() -> InlineStyle {
    InlineStyle {
        fg: ColorSpec::Default,
        bg: ColorSpec::Default,
        bold: false,
        dim: false,
        fill: false,
    }
}

impl Default for InlineStyle {
    fn default() -> (r: Self)
        ensures
            r == plain_style(),
    {
        InlineStyle {
            fg: ColorSpec::Default,
            bg: ColorSpec::Default,
            bold: false,
            dim: false,
            fill: false,
        }
    }
}

/// The escape sequences that select a style.
pub open spec fn style_code(style: InlineStyle) -> Seq<char> {
    (if style.bold {
        "\x1b[1m"@
    } else {
        Seq::empty()
    }) + (if style.dim {
        "\x1b[2m"@
    } else {
        Seq::empty()
    }) + color_code(style.fg, "\x1b[38;"@) + color_code(style.bg, "\x1b[48;"@)
}

impl InlineStyle {
    /// The escape sequences that select this style.
    pub fn to_ansi(&self) -> (r: String)
        ensures
            r@ == style_code(*self),
    {
        let mut out = String::new();
        if self.bold {
            out.append("\x1b[1m");
        }
        if self.dim {
            out.append("\x1b[2m");
        }
        out.append(self.fg.to_ansi_fg().as_str());
        out.append(self.bg.to_ansi_bg().as_str());
        assert(out@ =~= style_code(*self));
        out
    }

    /// Whether this style differs from plain text in any way.
    pub fn has_any_style(&self) -> (r: bool)
        ensures
            r == (*self != plain_style()),
    {
        !self.fg.is_default() || !self.bg.is_default() || self.bold || self.dim || self.fill
    }
}

// ---------------------------------------------------------------------------------------
// Runs and glyphs
// ---------------------------------------------------------------------------------------

/// A text in one style.
pub type Run = (Seq<char>, InlineStyle);

/// A character with its style.
pub type Glyph = (char, InlineStyle);

/// Runs with a text added at the end: it joins the last run where the styles agree.
pub open spec fn push_run(runs: Seq<Run>, text: Seq<char>, style: InlineStyle) -> Seq<Run> {
    if text.len() == 0 {
        runs
    } else if runs.len() > 0 && runs.last().1 == style {
        runs.drop_last().push((runs.last().0 + text, style))
    } else {
        runs.push((text, style))
    }
}

/// Runs with the runs of `more` added one after the other.
pub open spec fn extend_runs(runs: Seq<Run>, more: Seq<Run>) -> Seq<Run>
    decreases more.len(),
{
    if more.len() == 0 {
        runs
    } else {
        push_run(extend_runs(runs, more.drop_last()), more.last().0, more.last().1)
    }
}

/// The characters of a text, all in one style.
pub open spec fn paint(text: Seq<char>, style: InlineStyle) -> Seq<Glyph> {
    Seq::new(text.len(), |i: int| (text[i], style))
}

/// The characters of runs, each with its style.
pub open spec fn glyphs(runs: Seq<Run>) -> Seq<Glyph>
    decreases runs.len(),
{
    if runs.len() == 0 {
        Seq::empty()
    } else {
        glyphs(runs.drop_last()) + paint(runs.last().0, runs.last().1)
    }
}

/// Characters gathered into runs.
pub open spec fn runs_of(g: Seq<Glyph>) -> Seq<Run>
    decreases g.len(),
{
    if g.len() == 0 {
        Seq::empty()
    } else {
        push_run(runs_of(g.drop_last()), seq![g.last().0], g.last().1)
    }
}

/// The text of runs.
pub open spec fn plain(runs: Seq<Run>) -> Seq<char>
    decreases runs.len(),
{
    if runs.len() == 0 {
        Seq::empty()
    } else {
        plain(runs.drop_last()) + runs.last().0
    }
}

/// The text of characters with styles.
pub open spec fn unstyled(g: Seq<Glyph>) -> Seq<char> {
    g.map_values(|x: Glyph| x.0)
}

/// The displayed width of runs, run by run.
pub open spec fn runs_width(runs: Seq<Run>) -> nat
    decreases runs.len(),
{
    if runs.len() == 0 {
        0
    } else {
        runs_width(runs.drop_last()) + text_width(runs.last().0) as nat
    }
}

/// The columns that characters take, one by one.
pub open spec fn glyphs_columns(g: Seq<Glyph>) -> nat
    decreases g.len(),
{
    if g.len() == 0 {
        0
    } else {
        glyphs_columns(g.drop_last()) + columns(g.last().0)
    }
}

/// Characters that are all printable ASCII or horizontal ellipses.
pub open spec fn narrow_glyphs(g: Seq<Glyph>) -> bool {
    forall|i: int| 0 <= i < g.len() ==> narrow((#[trigger] g[i]).0)
}

/// Runs whose displayed width is the number of columns that their characters take.
pub open spec fn measured(runs: Seq<Run>) -> bool {
    runs_width(runs) == glyphs_columns(glyphs(runs))
}

/// How many characters from the front fit into `room` columns: as many as fit, and none
/// beyond the one that fills the last column.
pub open spec fn head_fit(g: Seq<Glyph>, room: nat) -> nat
    decreases g.len(),
{
    if g.len() == 0 {
        0
    } else {
        let w = columns(g[0].0);
        if w > room {
            0
        } else if w == room {
            1
        } else {
            1 + head_fit(g.drop_first(), (room - w) as nat)
        }
    }
}

/// How many characters from the back fit into `room` columns.
pub open spec fn tail_fit(g: Seq<Glyph>, room: nat) -> nat
    decreases g.len(),
{
    if g.len() == 0 {
        0
    } else {
        let w = columns(g.last().0);
        if w > room {
            0
        } else if w == room {
            1
        } else {
            1 + tail_fit(g.drop_last(), (room - w) as nat)
        }
    }
}

/// No more characters fit than there are.
pub proof fn lemma_fit_bounds(g: Seq<Glyph>, room: nat)
    ensures
        head_fit(g, room) <= g.len(),
        tail_fit(g, room) <= g.len(),
    decreases g.len(),
{
    if g.len() > 0 {
        let w = columns(g[0].0);
        if w < room {
            lemma_fit_bounds(g.drop_first(), (room - w) as nat);
        }
        let v = columns(g.last().0);
        if v < room {
            lemma_fit_bounds(g.drop_last(), (room - v) as nat);
        }
    }
}

/// The runs of what fits into `room` columns at the front.
pub open spec fn clipped_end(runs: Seq<Run>, room: nat) -> Seq<Run> {
    runs_of(glyphs(runs).take(head_fit(glyphs(runs), room) as int))
}

/// The runs of what fits into `room` columns at the back.
pub open spec fn clipped_start(runs: Seq<Run>, room: nat) -> Seq<Run> {
    runs_of(glyphs(runs).skip(glyphs(runs).len() - tail_fit(glyphs(runs), room)))
}

/// The text that stands for what a truncation left out.
pub open spec fn marker() -> Seq<char> {
    "\u{2026}"@
}

/// The columns that the marker takes.
fn marker_columns() -> (w: usize)
    ensures
        w == 1,
        w == text_width(marker()),
        columns('\u{2026}') == 1,
{
    proof {
        reveal_strlit("\u{2026}");
        assert("\u{2026}"@ =~= seq!['\u{2026}']);
    }
    let w: usize = columns_of('\u{2026}');
    measure("\u{2026}")
}

/// The marker is one plain character.
proof fn lemma_marker_glyphs()
    ensures
        glyphs(push_run(Seq::empty(), marker(), plain_style())) == paint(marker(), plain_style()),
        glyphs_columns(paint(marker(), plain_style())) == columns('\u{2026}'),
{
    reveal_strlit("\u{2026}");
    pushing_adds_glyphs(Seq::empty(), marker(), plain_style());
    assert(paint(marker(), plain_style()) =~= seq![('\u{2026}', plain_style())]);
    lemma_columns_one(('\u{2026}', plain_style()));
    assert(glyphs(Seq::<Run>::empty()) + paint(marker(), plain_style()) =~= paint(
        marker(),
        plain_style(),
    ));
}

/// Runs cut to `room` columns at the end, with the marker in place of what was cut.
pub open spec fn truncated_end(runs: Seq<Run>, room: nat) -> Seq<Run> {
    if runs_width(runs) <= room {
        runs
    } else if room == 0 {
        Seq::empty()
    } else if room <= text_width(marker()) {
        push_run(Seq::empty(), marker(), plain_style())
    } else {
        push_run(
            clipped_end(runs, (room - text_width(marker())) as nat),
            marker(),
            plain_style(),
        )
    }
}

/// Runs cut to `room` columns at the start, with the marker in place of what was cut.
pub open spec fn truncated_start(runs: Seq<Run>, room: nat) -> Seq<Run> {
    if runs_width(runs) <= room {
        runs
    } else if room == 0 {
        Seq::empty()
    } else if room <= text_width(marker()) {
        push_run(Seq::empty(), marker(), plain_style())
    } else {
        extend_runs(
            push_run(Seq::empty(), marker(), plain_style()),
            clipped_start(runs, (room - text_width(marker())) as nat),
        )
    }
}

/// The escape sequence that takes back a style.
pub open spec fn reset_code(style: InlineStyle) -> Seq<char> {
    if style != plain_style() {
        "\x1b[0m"@
    } else {
        Seq::empty()
    }
}

/// The escape sequences between text in one style and text in another.
pub open spec fn switch_code(from: InlineStyle, to: InlineStyle) -> Seq<char> {
    if to != from {
        reset_code(from) + style_code(to)
    } else {
        Seq::empty()
    }
}

/// The escape sequences and text that show runs after text in style `current`.
pub open spec fn ansi_after(runs: Seq<Run>, current: InlineStyle) -> Seq<char>
    decreases runs.len(),
{
    if runs.len() == 0 {
        reset_code(current)
    } else {
        switch_code(current, runs[0].1) + runs[0].0 + ansi_after(runs.drop_first(), runs[0].1)
    }
}

fn push_reset(out: &mut String, style: InlineStyle)
    ensures
        final(out)@ == old(out)@ + reset_code(style),
{
    if style.has_any_style() {
        out.append("\x1b[0m");
    } else {
        assert(out@ =~= out@ + reset_code(style));
    }
}

fn push_switch(out: &mut String, from: InlineStyle, to: InlineStyle)
    ensures
        final(out)@ == old(out)@ + switch_code(from, to),
{
    let ghost before = out@;
    if to != from {
        push_reset(out, from);
        out.append(to.to_ansi().as_str());
    }
    assert(out@ =~= before + switch_code(from, to));
}

/// One more run, shown.
proof fn lemma_ansi_step(runs: Seq<Run>, current: InlineStyle, i: int, out: Seq<char>)
    requires
        0 <= i < runs.len(),
    ensures
        out + ansi_after(runs.skip(i), current) == out + switch_code(current, runs[i].1)
            + runs[i].0 + ansi_after(runs.skip(i + 1), runs[i].1),
{
    let rest = runs.skip(i);
    assert(rest[0] == runs[i]);
    assert(rest.drop_first() =~= runs.skip(i + 1));
    let a = switch_code(current, runs[i].1);
    let b = runs[i].0;
    let c = ansi_after(runs.skip(i + 1), runs[i].1);
    assert(out + (a + b + c) =~= out + a + b + c);
}

// ---------------------------------------------------------------------------------------
// Styled text
// ---------------------------------------------------------------------------------------

/// A text in one style.
#[derive(Debug, Clone, PartialEq, Eq)]
pub struct StyledSegment {
    pub text: String,
    pub style: InlineStyle,
}

impl View for StyledSegment {
    type V = Run;

    open spec fn view(&self) -> Run {
        (self.text@, self.style)
    }
}

impl StyledSegment {
    /// The displayed width of the text.
    pub fn display_width(&self) -> (w: usize)
        ensures
            w == text_width(self@.0),
            narrow_text(self@.0) ==> w == self@.0.len() && w == text_columns(self@.0),
    {
        measure(self.text.as_str())
    }
}

/// Text made of segments in different styles.
#[derive(Debug, Clone, PartialEq, Eq)]
pub struct StyledText {
    pub segments: Vec<StyledSegment>,
}

impl View for StyledText {
    type V = Seq<Run>;

    open spec fn view(&self) -> Seq<Run> {
        self.segments@.map_values(|s: StyledSegment| s@)
    }
}

impl Default for StyledText {
    fn default() -> (r: Self)
        ensures
            r@ == Seq::<Run>::empty(),
    {
        StyledText::new()
    }
}

impl StyledText {
    /// The text with nothing in it.
    pub fn new() -> (r: Self)
        ensures
            r@ == Seq::<Run>::empty(),
    {
        let r = StyledText { segments: Vec::new() };
        assert(r@ =~= Seq::<Run>::empty());
        r
    }

    /// A text in the plain style.
    pub fn plain(text: &str) -> (r: Self)
        ensures
            r@ == push_run(Seq::empty(), text@, plain_style()),
    {
        let mut styled = StyledText::new();
        styled.push(text, InlineStyle::default());
        styled
    }

    /// Adds a text at the end.
    pub fn push(&mut self, text: &str, style: InlineStyle)
        ensures
            final(self)@ == push_run(old(self)@, text@, style),
    {
        if text.is_empty() {
            return;
        }
        let ghost before = self@;
        let n: usize = self.segments.len();
        if n > 0 && self.segments[n - 1].style == style {
            if let Some(last) = self.segments.pop() {
                let mut joined = last.text;
                joined.append(text);
                self.segments.push(StyledSegment { text: joined, style });
            }
            assert(before.last() == old(self).segments@[n - 1]@);
            assert(self@ =~= push_run(before, text@, style));
            return;
        }
        self.segments.push(StyledSegment { text: text.to_owned(), style });
        proof {
            if n > 0 {
                assert(before.last() == old(self).segments@[n - 1]@);
            }
            assert(self@ =~= push_run(before, text@, style));
        }
    }

    /// Adds a text in the plain style.
    pub fn push_plain(&mut self, text: &str)
        ensures
            final(self)@ == push_run(old(self)@, text@, plain_style()),
    {
        self.push(text, InlineStyle::default());
    }

    /// Adds another styled text at the end.
    pub fn extend(&mut self, other: StyledText)
        ensures
            final(self)@ == extend_runs(old(self)@, other@),
    {
        let ghost before = self@;
        let mut i: usize = 0;
        while i < other.segments.len()
            invariant
                i <= other.segments.len(),
                self@ == extend_runs(before, other@.take(i as int)),
            decreases other.segments.len() - i,
        {
            let segment = &other.segments[i];
            self.push(segment.text.as_str(), segment.style);
            i = i + 1;
            proof {
                let t = other@.take(i as int);
                assert(t.drop_last() =~= other@.take(i - 1));
                assert(t.last() == other.segments@[i - 1]@);
            }
        }
        assert(other@.take(other@.len() as int) =~= other@);
    }

    /// The displayed width, in a number that no sum of widths exceeds.
    pub(crate) fn wide_width(&self) -> (w: u128)
        ensures
            w == runs_width(self@),
            narrow_glyphs(glyphs(self@)) ==> measured(self@) && w == glyphs(self@).len(),
    {
        let mut sum: u128 = 0;
        let mut i: usize = 0;
        while i < self.segments.len()
            invariant
                i <= self.segments.len(),
                sum == runs_width(self@.take(i as int)),
                narrow_glyphs(glyphs(self@.take(i as int))) ==> sum == glyphs_columns(
                    glyphs(self@.take(i as int)),
                ) && sum == glyphs(self@.take(i as int)).len(),
                sum <= i * 0xffff_ffff_ffff_ffff,
            decreases self.segments.len() - i,
        {
            let w: usize = self.segments[i].display_width();
            proof {
                assert(i * 0xffff_ffff_ffff_ffff + 0xffff_ffff_ffff_ffff == (i + 1)
                    * 0xffff_ffff_ffff_ffff) by (nonlinear_arith);
                assert((i + 1) * 0xffff_ffff_ffff_ffff <= 0xffff_ffff_ffff_ffff
                    * 0xffff_ffff_ffff_ffff) by (nonlinear_arith)
                    requires
                        i + 1 <= 0xffff_ffff_ffff_ffff,
                ;
            }
            sum = sum + w as u128;
            i = i + 1;
            proof {
                let t = self@.take(i as int);
                assert(t.drop_last() =~= self@.take(i - 1));
                assert(t.last() == self.segments@[i - 1]@);
                if narrow_glyphs(glyphs(t)) {
                    lemma_narrow_ends(glyphs(t.drop_last()), t.last());
                }
                lemma_columns_join(glyphs(t.drop_last()), paint(t.last().0, t.last().1));
                lemma_painted_columns(t.last().0, t.last().1);
            }
        }
        assert(self@.take(self@.len() as int) =~= self@);
        sum
    }

    /// The displayed width: the sum of the widths of the segments.
    pub fn display_width(&self) -> (w: usize)
        requires
            runs_width(self@) <= usize::MAX,
        ensures
            w == runs_width(self@),
            narrow_glyphs(glyphs(self@)) ==> measured(self@) && w == glyphs(self@).len(),
    {
        self.wide_width() as usize
    }

    /// The displayed width, where a machine word holds it.
    pub fn checked_display_width(&self) -> (r: Option<usize>)
        ensures
            match r {
                Some(w) => w == runs_width(self@),
                None => runs_width(self@) > usize::MAX,
            },
            narrow_glyphs(glyphs(self@)) ==> measured(self@) && runs_width(self@) == glyphs(
                self@,
            ).len(),
    {
        if self.wide_width() <= usize::MAX as u128 {
            Some(self.display_width())
        } else {
            None
        }
    }

    /// The text without styles.
    pub fn plain_text(&self) -> (r: String)
        ensures
            r@ == plain(self@),
    {
        let mut out = String::new();
        let mut i: usize = 0;
        while i < self.segments.len()
            invariant
                i <= self.segments.len(),
                out@ == plain(self@.take(i as int)),
            decreases self.segments.len() - i,
        {
            out.append(self.segments[i].text.as_str());
            i = i + 1;
            proof {
                let t = self@.take(i as int);
                assert(t.drop_last() =~= self@.take(i - 1));
                assert(t.last() == self.segments@[i - 1]@);
            }
        }
        assert(self@.take(self@.len() as int) =~= self@);
        out
    }

    /// The text with the escape sequences that show its styles.
    pub fn to_ansi(&self) -> (r: String)
        ensures
            r@ == ansi_after(self@, plain_style()),
    {
        let mut out = String::new();
        let mut current = InlineStyle::default();
        let ghost goal = ansi_after(self@, plain_style());
        let mut i: usize = 0;
        proof {
            assert(self@.skip(0) =~= self@);
            assert(out@ + goal =~= goal);
        }
        while i < self.segments.len()
            invariant
                i <= self.segments.len(),
                goal == ansi_after(self@, plain_style()),
                goal == out@ + ansi_after(self@.skip(i as int), current),
            decreases self.segments.len() - i,
        {
            let segment = &self.segments[i];
            proof {
                lemma_ansi_step(self@, current, i as int, out@);
                assert(self@[i as int] == segment@);
            }
            push_switch(&mut out, current, segment.style);
            out.append(segment.text.as_str());
            current = segment.style;
            i = i + 1;
        }
        push_reset(&mut out, current);
        out
    }

    /// The characters, each with its style.
    fn glyph_list(&self) -> (r: Vec<(char, InlineStyle)>)
        ensures
            r@ == glyphs(self@),
    {
        let mut out: Vec<(char, InlineStyle)> = Vec::new();
        let mut i: usize = 0;
        while i < self.segments.len()
            invariant
                i <= self.segments.len(),
                out@ == glyphs(self@.take(i as int)),
            decreases self.segments.len() - i,
        {
            let segment = &self.segments[i];
            let text = chars_of(segment.text.as_str());
            let ghost before = out@;
            let mut j: usize = 0;
            while j < text.len()
                invariant
                    j <= text.len(),
                    text@ == segment.text@,
                    out@ == before + paint(text@.take(j as int), segment.style),
                decreases text.len() - j,
            {
                out.push((text[j], segment.style));
                j = j + 1;
                assert(out@ =~= before + paint(text@.take(j as int), segment.style));
            }
            i = i + 1;
            proof {
                assert(text@.take(text@.len() as int) =~= text@);
                let t = self@.take(i as int);
                assert(t.drop_last() =~= self@.take(i - 1));
                assert(t.last() == self.segments@[i - 1]@);
            }
        }
        assert(self@.take(self@.len() as int) =~= self@);
        out
    }

    /// The text with the given characters and styles.
    fn from_glyphs(g: &[(char, InlineStyle)]) -> (r: StyledText)
        ensures
            r@ == runs_of(g@),
    {
        let mut r = StyledText::new();
        let mut i: usize = 0;
        while i < g.len()
            invariant
                i <= g.len(),
                r@ == runs_of(g@.take(i as int)),
            decreases g.len() - i,
        {
            let mut one = String::new();
            one.push(g[i].0);
            assert(one@ =~= seq![g@[i as int].0]);
            r.push(one.as_str(), g[i].1);
            i = i + 1;
            proof {
                let t = g@.take(i as int);
                assert(t.drop_last() =~= g@.take(i - 1));
                assert(t.last() == g@[i - 1]);
            }
        }
        assert(g@.take(g@.len() as int) =~= g@);
        r
    }

    /// The same text, of which it is known how wide it is where it is narrow.
    fn weighed(self) -> (r: Self)
        ensures
            r@ == self@,
            narrow_glyphs(glyphs(r@)) ==> measured(r@),
    {
        let _: u128 = self.wide_width();
        self
    }

    /// Keeps what fits into `max_width` columns at the front.
    pub fn clip_end(&self, max_width: usize) -> (r: Self)
        ensures
            r@ == clipped_end(self@, max_width as nat),
            narrow_glyphs(glyphs(self@)) ==> measured(r@) && runs_width(r@) <= max_width,
    {
        proof {
            clipping_the_end_keeps_a_beginning(self@, max_width as nat);
        }
        self.take_prefix(max_width).weighed()
    }

    /// Keeps what fits into `max_width` columns at the back.
    pub fn clip_start(&self, max_width: usize) -> (r: Self)
        ensures
            r@ == clipped_start(self@, max_width as nat),
            narrow_glyphs(glyphs(self@)) ==> measured(r@) && runs_width(r@) <= max_width,
    {
        proof {
            clipping_the_start_keeps_an_ending(self@, max_width as nat);
        }
        self.take_suffix(max_width).weighed()
    }

    fn take_prefix(&self, max_width: usize) -> (r: Self)
        ensures
            r@ == clipped_end(self@, max_width as nat),
    {
        let all = self.glyph_list();
        let ghost g = glyphs(self@);
        let mut remaining: usize = max_width;
        let mut i: usize = 0;
        assert(g.skip(0) =~= g);
        while i < all.len()
            invariant_except_break
                head_fit(g, max_width as nat) == i + head_fit(g.skip(i as int), remaining as nat),
            invariant
                i <= all.len(),
                all@ == g,
            ensures
                i <= all.len(),
                i == head_fit(g, max_width as nat),
            decreases all.len() - i,
        {
            let w: usize = columns_of(all[i].0);
            assert(g.skip(i as int)[0] == g[i as int]);
            assert(g.skip(i as int).drop_first() =~= g.skip(i + 1));
            if w > remaining {
                break;
            }
            i = i + 1;
            remaining = remaining - w;
            if remaining == 0 {
                break;
            }
        }
        let kept = slice_subrange(all.as_slice(), 0, i);
        assert(kept@ =~= g.take(i as int));
        StyledText::from_glyphs(kept)
    }

    fn take_suffix(&self, max_width: usize) -> (r: Self)
        ensures
            r@ == clipped_start(self@, max_width as nat),
    {
        let all = self.glyph_list();
        let ghost g = glyphs(self@);
        let mut remaining: usize = max_width;
        let mut n: usize = all.len();
        assert(g.take(n as int) =~= g);
        while n > 0
            invariant_except_break
                tail_fit(g, max_width as nat) == (all.len() - n) + tail_fit(
                    g.take(n as int),
                    remaining as nat,
                ),
            invariant
                n <= all.len(),
                all@ == g,
            ensures
                n <= all.len(),
                all.len() - n == tail_fit(g, max_width as nat),
            decreases n,
        {
            let w: usize = columns_of(all[n - 1].0);
            assert(g.take(n as int).last() == g[n - 1]);
            assert(g.take(n as int).drop_last() =~= g.take(n - 1));
            if w > remaining {
                break;
            }
            n = n - 1;
            remaining = remaining - w;
            if remaining == 0 {
                break;
            }
        }
        let kept = slice_subrange(all.as_slice(), n, all.len());
        assert(kept@ =~= g.skip(n as int));
        StyledText::from_glyphs(kept)
    }

    /// Keeps the front of a text that is too wide, with a marker for the rest.
    pub fn truncate_end(&self, max_width: usize) -> (r: Self)
        ensures
            r@ == truncated_end(self@, max_width as nat),
            text_width(marker()) == 1,
            runs_width(self@) > max_width ==> glyphs_columns(glyphs(r@)) <= max_width,
    {
        let marker_width: usize = marker_columns();
        if self.wide_width() <= max_width as u128 {
            return self.duplicate();
        }
        if max_width == 0 {
            return StyledText::new();
        }
        if max_width <= marker_width {
            proof {
                lemma_marker_glyphs();
            }
            return StyledText::plain("\u{2026}");
        }
        let mut truncated = self.take_prefix(max_width - marker_width);
        truncated.push_plain("\u{2026}");
        proof {
            let room = (max_width - marker_width) as nat;
            let kept = clipped_end(self@, room);
            clipping_the_end_keeps_a_beginning(self@, room);
            pushing_adds_glyphs(kept, marker(), plain_style());
            lemma_columns_join(glyphs(kept), paint(marker(), plain_style()));
            lemma_marker_glyphs();
        }
        truncated
    }

    /// Keeps the back of a text that is too wide, with a marker for the rest.
    pub fn truncate_start(&self, max_width: usize) -> (r: Self)
        ensures
            r@ == truncated_start(self@, max_width as nat),
            text_width(marker()) == 1,
            runs_width(self@) > max_width ==> glyphs_columns(glyphs(r@)) <= max_width,
    {
        let marker_width: usize = marker_columns();
        if self.wide_width() <= max_width as u128 {
            return self.duplicate();
        }
        if max_width == 0 {
            return StyledText::new();
        }
        if max_width <= marker_width {
            proof {
                lemma_marker_glyphs();
            }
            return StyledText::plain("\u{2026}");
        }
        let mut truncated = StyledText::plain("\u{2026}");
        truncated.extend(self.take_suffix(max_width - marker_width));
        proof {
            let room = (max_width - marker_width) as nat;
            let kept = clipped_start(self@, room);
            let mark = push_run(Seq::empty(), marker(), plain_style());
            clipping_the_start_keeps_an_ending(self@, room);
            extending_joins_glyphs(mark, kept);
            lemma_columns_join(glyphs(mark), glyphs(kept));
            lemma_marker_glyphs();
        }
        truncated
    }
}

impl Record for StyledText {
    fn duplicate(&self) -> (r: Self) {
        let mut segments: Vec<StyledSegment> = Vec::new();
        let mut i: usize = 0;
        while i < self.segments.len()
            invariant
                i <= self.segments.len(),
                segments@.len() == i,
                forall|j: int| 0 <= j < i ==> (#[trigger] segments@[j])@ == self.segments@[j]@,
            decreases self.segments.len() - i,
        {
            segments.push(
                StyledSegment {
                    text: self.segments[i].text.clone(),
                    style: self.segments[i].style,
                },
            );
            i = i + 1;
        }
        let r = StyledText { segments };
        assert(r@ =~= self@);
        r
    }

    fn agrees(&self, other: &Self) -> (r: bool) {
        if self.segments.len() != other.segments.len() {
            assert(self@.len() != other@.len());
            return false;
        }
        let mut i: usize = 0;
        while i < self.segments.len()
            invariant
                i <= self.segments.len(),
                self.segments.len() == other.segments.len(),
                forall|j: int| 0 <= j < i ==> (#[trigger] self@[j]) == other@[j],
            decreases self.segments.len() - i,
        {
            let same_text = self.segments[i].text.agrees(&other.segments[i].text);
            if !same_text || self.segments[i].style != other.segments[i].style {
                assert(self@[i as int] != other@[i as int]);
                return false;
            }
            i = i + 1;
        }
        assert(self@ =~= other@);
        true
    }
}

// ---------------------------------------------------------------------------------------
// Laws
// ---------------------------------------------------------------------------------------

/// Adding a text to runs adds its characters, in its style, to theirs.
pub proof fn pushing_adds_glyphs(runs: Seq<Run>, text: Seq<char>, style: InlineStyle)
    ensures
        glyphs(push_run(runs, text, style)) == glyphs(runs) + paint(text, style),
{
    let all = push_run(runs, text, style);
    if text.len() == 0 {
        assert(paint(text, style) =~= Seq::<Glyph>::empty());
        assert(glyphs(runs) + paint(text, style) =~= glyphs(runs));
    } else if runs.len() > 0 && runs.last().1 == style {
        let joined = runs.last().0 + text;
        assert(all.drop_last() =~= runs.drop_last());
        assert(paint(joined, style) =~= paint(runs.last().0, style) + paint(text, style));
        assert(glyphs(all) =~= glyphs(runs) + paint(text, style));
    } else {
        assert(all.drop_last() =~= runs);
    }
}

/// Extending one styled text by another puts the characters of the one behind those of the
/// other.
pub proof fn extending_joins_glyphs(runs: Seq<Run>, more: Seq<Run>)
    ensures
        glyphs(extend_runs(runs, more)) == glyphs(runs) + glyphs(more),
    decreases more.len(),
{
    if more.len() == 0 {
        assert(glyphs(runs) + glyphs(more) =~= glyphs(runs));
    } else {
        extending_joins_glyphs(runs, more.drop_last());
        pushing_adds_glyphs(
            extend_runs(runs, more.drop_last()),
            more.last().0,
            more.last().1,
        );
        assert(glyphs(extend_runs(runs, more)) =~= glyphs(runs) + glyphs(more));
    }
}

/// Characters gathered into runs are the characters of those runs.
pub proof fn gathering_keeps_glyphs(g: Seq<Glyph>)
    ensures
        glyphs(runs_of(g)) == g,
    decreases g.len(),
{
    if g.len() > 0 {
        gathering_keeps_glyphs(g.drop_last());
        pushing_adds_glyphs(runs_of(g.drop_last()), seq![g.last().0], g.last().1);
        assert(paint(seq![g.last().0], g.last().1) =~= seq![g.last()]);
        assert(g =~= g.drop_last() + seq![g.last()]);
    }
}

/// The text of runs is the text of their characters.
pub proof fn text_is_that_of_glyphs(runs: Seq<Run>)
    ensures
        plain(runs) == unstyled(glyphs(runs)),
    decreases runs.len(),
{
    if runs.len() == 0 {
        assert(plain(runs) =~= unstyled(glyphs(runs)));
    } else {
        text_is_that_of_glyphs(runs.drop_last());
        assert(plain(runs) =~= unstyled(glyphs(runs)));
    }
}

/// No run is empty, and neighbours differ in style.
pub open spec fn separated(runs: Seq<Run>) -> bool {
    &&& forall|i: int| 0 <= i < runs.len() ==> (#[trigger] runs[i]).0.len() > 0
    &&& forall|i: int, j: int|
        0 <= i && j == i + 1 && j < runs.len() ==> (#[trigger] runs[i]).1 != (
        #[trigger] runs[j]).1
}

/// Text built by adding to it consists of as few runs as its styles allow.
pub proof fn pushing_keeps_separated(runs: Seq<Run>, text: Seq<char>, style: InlineStyle)
    requires
        separated(runs),
    ensures
        separated(push_run(runs, text, style)),
{
    let all = push_run(runs, text, style);
    assert forall|i: int, j: int| 0 <= i && j == i + 1 && j < all.len() implies (
    #[trigger] all[i]).1 != (#[trigger] all[j]).1 by {
        assert(runs[i].1 == all[i].1);
        if j < runs.len() {
            assert(runs[j].1 == all[j].1);
        }
    }
}

/// Characters gathered into runs give as few runs as their styles allow.
pub proof fn gathering_gives_separated(g: Seq<Glyph>)
    ensures
        separated(runs_of(g)),
    decreases g.len(),
{
    if g.len() > 0 {
        gathering_gives_separated(g.drop_last());
        pushing_keeps_separated(runs_of(g.drop_last()), seq![g.last().0], g.last().1);
    }
}

/// A text painted in a style takes the columns of its characters.
pub proof fn lemma_painted_columns(text: Seq<char>, style: InlineStyle)
    ensures
        glyphs_columns(paint(text, style)) == text_columns(text),
    decreases text.len(),
{
    if text.len() > 0 {
        lemma_painted_columns(text.drop_last(), style);
        assert(paint(text, style).drop_last() =~= paint(text.drop_last(), style));
    }
}

/// Runs whose text is narrow have narrow characters.
pub proof fn runs_of_narrow_text_are_narrow(runs: Seq<Run>)
    requires
        narrow_text(plain(runs)),
    ensures
        narrow_glyphs(glyphs(runs)),
{
    text_is_that_of_glyphs(runs);
    let g = glyphs(runs);
    assert forall|i: int| 0 <= i < g.len() implies narrow((#[trigger] g[i]).0) by {
        assert(plain(runs)[i] == g[i].0);
    }
}

/// Narrow characters with a run behind them come from narrow characters and a narrow text.
proof fn lemma_narrow_ends(g: Seq<Glyph>, run: Run)
    requires
        narrow_glyphs(g + paint(run.0, run.1)),
    ensures
        narrow_glyphs(g),
        narrow_text(run.0),
{
    let all = g + paint(run.0, run.1);
    assert forall|i: int| 0 <= i < g.len() implies narrow((#[trigger] g[i]).0) by {
        assert(all[i] == g[i]);
    }
    assert forall|i: int| 0 <= i < run.0.len() implies narrow(#[trigger] run.0[i]) by {
        assert(all[g.len() + i].0 == run.0[i]);
    }
}

/// Characters join, and their columns add up.
pub proof fn lemma_columns_join(a: Seq<Glyph>, b: Seq<Glyph>)
    ensures
        glyphs_columns(a + b) == glyphs_columns(a) + glyphs_columns(b),
    decreases b.len(),
{
    if b.len() == 0 {
        assert(a + b =~= a);
    } else {
        lemma_columns_join(a, b.drop_last());
        assert((a + b).drop_last() =~= a + b.drop_last());
        assert((a + b).last() == b.last());
    }
}

proof fn lemma_columns_one(x: Glyph)
    ensures
        glyphs_columns(seq![x]) == columns(x.0),
{
    assert(seq![x].drop_last() =~= Seq::<Glyph>::empty());
    reveal_with_fuel(glyphs_columns, 2);
}

/// What [`head_fit`] is.
pub proof fn lemma_head_fit(g: Seq<Glyph>, room: nat)
    ensures
        head_fit(g, room) <= g.len(),
        glyphs_columns(g.take(head_fit(g, room) as int)) <= room,
        head_fit(g, room) < g.len() ==> glyphs_columns(g.take(head_fit(g, room) as int)) == room
            || glyphs_columns(g.take(head_fit(g, room) as int + 1)) > room,
    decreases g.len(),
{
    lemma_fit_bounds(g, room);
    if g.len() > 0 {
        let w = columns(g[0].0);
        let one = g.take(1);
        assert(one =~= seq![g[0]]);
        lemma_columns_one(g[0]);
        if w > room {
            assert(g.take(0) =~= Seq::<Glyph>::empty());
        } else if w < room {
            let rest = g.drop_first();
            let k = head_fit(rest, (room - w) as nat) as int;
            lemma_head_fit(rest, (room - w) as nat);
            assert(g.take(k + 1) =~= one + rest.take(k));
            lemma_columns_join(one, rest.take(k));
            if k < rest.len() {
                assert(g.take(k + 2) =~= one + rest.take(k + 1));
                lemma_columns_join(one, rest.take(k + 1));
            }
        }
    } else {
        assert(g.take(0) =~= Seq::<Glyph>::empty());
    }
}

/// What [`tail_fit`] is.
pub proof fn lemma_tail_fit(g: Seq<Glyph>, room: nat)
    ensures
        tail_fit(g, room) <= g.len(),
        glyphs_columns(g.skip(g.len() - tail_fit(g, room))) <= room,
        tail_fit(g, room) < g.len() ==> glyphs_columns(g.skip(g.len() - tail_fit(g, room)))
            == room || glyphs_columns(g.skip(g.len() - tail_fit(g, room) - 1)) > room,
    decreases g.len(),
{
    lemma_fit_bounds(g, room);
    let n = g.len() as int;
    if n > 0 {
        let w = columns(g.last().0);
        let one = g.skip(n - 1);
        assert(one =~= seq![g.last()]);
        lemma_columns_one(g.last());
        if w > room {
            assert(g.skip(n) =~= Seq::<Glyph>::empty());
        } else if w < room {
            let rest = g.drop_last();
            let k = tail_fit(rest, (room - w) as nat) as int;
            lemma_tail_fit(rest, (room - w) as nat);
            assert(g.skip(n - 1 - k) =~= rest.skip(n - 1 - k) + one);
            lemma_columns_join(rest.skip(n - 1 - k), one);
            if k < rest.len() {
                assert(g.skip(n - 2 - k) =~= rest.skip(n - 2 - k) + one);
                lemma_columns_join(rest.skip(n - 2 - k), one);
            }
        }
    } else {
        assert(g.skip(n) =~= Seq::<Glyph>::empty());
    }
}

/// A text clipped at its end is a beginning of it, with its styles, and takes no more columns
/// than allowed.
pub proof fn clipping_the_end_keeps_a_beginning(runs: Seq<Run>, room: nat)
    ensures
        glyphs(clipped_end(runs, room)).is_prefix_of(glyphs(runs)),
        glyphs_columns(glyphs(clipped_end(runs, room))) <= room,
{
    let g = glyphs(runs);
    lemma_head_fit(g, room);
    gathering_keeps_glyphs(g.take(head_fit(g, room) as int));
}

/// A text clipped at its start is an ending of it, with its styles, and takes no more columns
/// than allowed.
pub proof fn clipping_the_start_keeps_an_ending(runs: Seq<Run>, room: nat)
    ensures
        glyphs(clipped_start(runs, room)).is_suffix_of(glyphs(runs)),
        glyphs_columns(glyphs(clipped_start(runs, room))) <= room,
{
    let g = glyphs(runs);
    lemma_tail_fit(g, room);
    gathering_keeps_glyphs(g.skip(g.len() - tail_fit(g, room)));
}

/// What clipping leaves out at either end did not fit: one character more takes too many
/// columns, unless the columns are used up.
pub proof fn clipping_leaves_out_only_what_does_not_fit(runs: Seq<Run>, room: nat)
    ensures
        ({
            let g = glyphs(runs);
            let head = glyphs(clipped_end(runs, room));
            let tail = glyphs(clipped_start(runs, room));
            &&& head.len() < g.len() ==> glyphs_columns(head) == room || glyphs_columns(
                g.take(head.len() as int + 1),
            ) > room
            &&& tail.len() < g.len() ==> glyphs_columns(tail) == room || glyphs_columns(
                g.skip(g.len() - tail.len() - 1),
            ) > room
        }),
{
    let g = glyphs(runs);
    lemma_head_fit(g, room);
    gathering_keeps_glyphs(g.take(head_fit(g, room) as int));
    lemma_tail_fit(g, room);
    gathering_keeps_glyphs(g.skip(g.len() - tail_fit(g, room)));
}

/// Text in the plain style alone is shown as it is, without escape sequences.
pub proof fn plain_text_needs_no_escapes(runs: Seq<Run>)
    requires
        forall|i: int| 0 <= i < runs.len() ==> (#[trigger] runs[i]).1 == plain_style(),
    ensures
        ansi_after(runs, plain_style()) == plain(runs),
    decreases runs.len(),
{
    if runs.len() > 0 {
        let rest = runs.drop_first();
        assert forall|i: int| 0 <= i < rest.len() implies (#[trigger] rest[i]).1
            == plain_style() by {
            assert(rest[i] == runs[i + 1]);
        }
        plain_text_needs_no_escapes(rest);
        lemma_plain_front(runs);
        assert(runs[0].1 == plain_style());
        assert(ansi_after(runs, plain_style()) =~= runs[0].0 + plain(rest));
    }
}

/// The text of runs begins with that of the first.
pub proof fn lemma_plain_front(runs: Seq<Run>)
    requires
        runs.len() > 0,
    ensures
        plain(runs) == runs[0].0 + plain(runs.drop_first()),
    decreases runs.len(),
{
    if runs.len() == 1 {
        assert(runs.drop_last() =~= Seq::<Run>::empty());
        assert(runs.drop_first() =~= Seq::<Run>::empty());
        assert(plain(runs) =~= runs[0].0 + plain(runs.drop_first()));
    } else {
        lemma_plain_front(runs.drop_last());
        assert(runs.drop_last().drop_first() =~= runs.drop_first().drop_last());
        assert(runs.drop_first().last() == runs.last());
        assert(plain(runs) =~= runs[0].0 + plain(runs.drop_first()));
    }
}

} // verus!
