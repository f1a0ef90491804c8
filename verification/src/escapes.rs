//! What is left of a text when its escape sequences are taken out.
use vstd::prelude::*;

use crate::style::{
    ansi_after, color_code, lemma_plain_front, plain, plain_style, reset_code, style_code,
    switch_code, ColorSpec, InlineStyle, Run,
};
use crate::text::{cut, lemma_cut_at, lemma_decimal};

verus! {

/// A text without its escape sequences, each of which runs from the escape character to the next
/// `m`.
pub open spec fn without_escapes(s: Seq<char>) -> Seq<char>
    decreases s.len(),
{
    if s.len() == 0 {
        Seq::empty()
    } else if s[0] == '\x1b' {
        let k = cut(s, 'm');
        if 0 <= k < s.len() {
            without_escapes(s.skip(k + 1))
        } else {
            Seq::empty()
        }
    } else {
        seq![s[0]] + without_escapes(s.drop_first())
    }
}

/// Runs whose texts hold no escape character.
pub open spec fn free_of_escapes(runs: Seq<Run>) -> bool {
    forall|i: int| 0 <= i < runs.len() ==> !(#[trigger] runs[i]).0.contains('\x1b')
}

/// One escape sequence.
spec fn is_escape(s: Seq<char>) -> bool {
    &&& s.len() > 1
    &&& s[0] == '\x1b'
    &&& s.last() == 'm'
    &&& forall|i: int| 0 <= i < s.len() - 1 ==> s[i] != 'm'
}

/// A text that vanishes when escape sequences are taken out, whatever follows it.
pub open spec fn vanishes(code: Seq<char>) -> bool {
    forall|s: Seq<char>| #[trigger] without_escapes(code + s) == without_escapes(s)
}

/// What holds no escape character stays when escape sequences are taken out.
pub proof fn lemma_text_stays(text: Seq<char>, s: Seq<char>)
    requires
        !text.contains('\x1b'),
    ensures
        without_escapes(text + s) == text + without_escapes(s),
    decreases text.len(),
{
    if text.len() == 0 {
        assert(text + s =~= s);
        assert(text + without_escapes(s) =~= without_escapes(s));
    } else {
        let rest = text.drop_first();
        assert(text.contains(text[0]));
        assert forall|c: char| rest.contains(c) implies text.contains(c) by {
            let i = rest.index_of(c);
            assert(text[i + 1] == c);
        }
        lemma_text_stays(rest, s);
        assert((text + s).drop_first() =~= rest + s);
        assert(seq![text[0]] + (rest + without_escapes(s)) =~= text + without_escapes(s));
    }
}

proof fn lemma_escape_vanishes(code: Seq<char>)
    requires
        is_escape(code),
    ensures
        vanishes(code),
{
    assert forall|s: Seq<char>| #[trigger] without_escapes(code + s) == without_escapes(s) by {
        let all = code + s;
        let k = code.len() - 1;
        assert forall|i: int| 0 <= i < k implies all[i] != 'm' by {
            assert(all[i] == code[i]);
        }
        lemma_cut_at(all, 'm', k);
        assert(all.skip(k + 1) =~= s);
    }
}

proof fn lemma_nothing_vanishes()
    ensures
        vanishes(Seq::empty()),
{
    assert forall|s: Seq<char>| #[trigger] without_escapes(Seq::<char>::empty() + s)
        == without_escapes(s) by {
        assert(Seq::<char>::empty() + s =~= s);
    }
}

proof fn lemma_both_vanish(a: Seq<char>, b: Seq<char>)
    requires
        vanishes(a),
        vanishes(b),
    ensures
        vanishes(a + b),
{
    assert forall|s: Seq<char>| #[trigger] without_escapes(a + b + s) == without_escapes(s) by {
        assert(a + b + s =~= a + (b + s));
        assert(without_escapes(a + (b + s)) == without_escapes(b + s));
    }
}

proof fn lemma_color_vanishes(color: ColorSpec, lead: Seq<char>)
    requires
        lead.len() > 0,
        lead[0] == '\x1b',
        !lead.contains('m'),
    ensures
        vanishes(color_code(color, lead)),
{
    let code = color_code(color, lead);
    reveal_strlit("5;");
    reveal_strlit("2;");
    reveal_strlit(";");
    reveal_strlit("m");
    assert forall|i: int| 0 <= i < lead.len() implies lead[i] != 'm' by {
        assert(lead.contains(lead[i]));
    }
    match color {
        ColorSpec::Default => {
            lemma_nothing_vanishes();
        },
        ColorSpec::EightBit(n) => {
            lemma_decimal(n as nat);
            assert(is_escape(code));
            lemma_escape_vanishes(code);
        },
        ColorSpec::Rgb(r, g, b) => {
            lemma_decimal(r as nat);
            lemma_decimal(g as nat);
            lemma_decimal(b as nat);
            assert(is_escape(code));
            lemma_escape_vanishes(code);
        },
    }
}

/// What selects a style vanishes.
pub proof fn lemma_style_vanishes(style: InlineStyle)
    ensures
        vanishes(style_code(style)),
{
    reveal_strlit("\x1b[1m");
    reveal_strlit("\x1b[2m");
    reveal_strlit("\x1b[38;");
    reveal_strlit("\x1b[48;");
    let bold = if style.bold {
        "\x1b[1m"@
    } else {
        Seq::empty()
    };
    let dim = if style.dim {
        "\x1b[2m"@
    } else {
        Seq::empty()
    };
    lemma_nothing_vanishes();
    lemma_escape_vanishes("\x1b[1m"@);
    lemma_escape_vanishes("\x1b[2m"@);
    lemma_color_vanishes(style.fg, "\x1b[38;"@);
    lemma_color_vanishes(style.bg, "\x1b[48;"@);
    lemma_both_vanish(bold, dim);
    lemma_both_vanish(bold + dim, color_code(style.fg, "\x1b[38;"@));
    lemma_both_vanish(
        bold + dim + color_code(style.fg, "\x1b[38;"@),
        color_code(style.bg, "\x1b[48;"@),
    );
}

/// What shows text in reverse, and what takes that or any style back, vanishes.
pub proof fn lemma_resets_vanish()
    ensures
        vanishes("\x1b[0m"@),
        vanishes("\x1b[7m"@),
        vanishes("\x1b[0m\x1b[7m"@),
{
    reveal_strlit("\x1b[0m");
    reveal_strlit("\x1b[7m");
    reveal_strlit("\x1b[0m\x1b[7m");
    lemma_escape_vanishes("\x1b[0m"@);
    lemma_escape_vanishes("\x1b[7m"@);
    lemma_both_vanish("\x1b[0m"@, "\x1b[7m"@);
    assert("\x1b[0m"@ + "\x1b[7m"@ =~= "\x1b[0m\x1b[7m"@);
}

proof fn lemma_switch_vanishes(from: InlineStyle, to: InlineStyle)
    ensures
        vanishes(reset_code(from)),
        vanishes(switch_code(from, to)),
{
    lemma_resets_vanish();
    lemma_nothing_vanishes();
    lemma_style_vanishes(to);
    lemma_both_vanish(reset_code(from), style_code(to));
}

proof fn lemma_shown_then(runs: Seq<Run>, current: InlineStyle, s: Seq<char>)
    requires
        free_of_escapes(runs),
    ensures
        without_escapes(ansi_after(runs, current) + s) == plain(runs) + without_escapes(s),
    decreases runs.len(),
{
    if runs.len() == 0 {
        lemma_switch_vanishes(current, current);
        assert(plain(runs) + without_escapes(s) =~= without_escapes(s));
    } else {
        let rest = runs.drop_first();
        let code = switch_code(current, runs[0].1);
        let later = ansi_after(rest, runs[0].1);
        assert forall|i: int| 0 <= i < rest.len() implies !(#[trigger] rest[i]).0.contains(
            '\x1b',
        ) by {
            assert(rest[i] == runs[i + 1]);
        }
        lemma_shown_then(rest, runs[0].1, s);
        lemma_switch_vanishes(current, runs[0].1);
        assert(code + runs[0].0 + later + s =~= code + (runs[0].0 + (later + s)));
        lemma_text_stays(runs[0].0, later + s);
        lemma_plain_front(runs);
        assert(runs[0].0 + (plain(rest) + without_escapes(s)) =~= plain(runs)
            + without_escapes(s));
    }
}

/// Shown text, with its escape sequences taken out, is the plain text; what stands behind it is
/// not touched.
pub proof fn styled_text_without_escapes_is_the_plain_text(
    runs: Seq<Run>,
    current: InlineStyle,
    behind: Seq<char>,
)
    requires
        free_of_escapes(runs),
    ensures
        without_escapes(ansi_after(runs, current) + behind) == plain(runs) + without_escapes(behind),
        without_escapes(ansi_after(runs, current)) == plain(runs),
{
    lemma_shown_then(runs, current, behind);
    lemma_shown_then(runs, current, Seq::empty());
    assert(ansi_after(runs, current) + Seq::<char>::empty() =~= ansi_after(runs, current));
    assert(plain(runs) + without_escapes(Seq::empty()) =~= plain(runs));
}

/// Shown text whose last run has a style ends in the escape sequence that takes the style back,
/// so that nothing behind it is shown in that style.
pub proof fn styled_text_is_followed_by_the_reset(runs: Seq<Run>, current: InlineStyle)
    requires
        runs.len() > 0,
        runs.last().1 != plain_style(),
    ensures
        "\x1b[0m"@.is_suffix_of(ansi_after(runs, current)),
    decreases runs.len(),
{
    let rest = runs.drop_first();
    let head = switch_code(current, runs[0].1) + runs[0].0;
    let later = ansi_after(rest, runs[0].1);
    if runs.len() > 1 {
        assert(rest.last() == runs.last());
        styled_text_is_followed_by_the_reset(rest, runs[0].1);
    }
    let reset = "\x1b[0m"@;
    assert(later.skip(later.len() - reset.len()) =~= reset);
    assert((head + later).skip((head + later).len() - reset.len()) =~= reset);
}

/// A text stands somewhere in another.
pub open spec fn holds_part(s: Seq<char>, part: Seq<char>) -> bool {
    exists|before: Seq<char>, behind: Seq<char>| s == #[trigger] (before + part + behind)
}

proof fn lemma_holds_part(before: Seq<char>, part: Seq<char>, behind: Seq<char>)
    ensures
        holds_part(before + part + behind, part),
{
}

/// Every run of a shown text stands behind the escape sequences of its own style, after the style
/// before it was taken back, if that was not the plain one; a run in the style before it needs
/// neither.
pub proof fn runs_are_shown_in_their_styles(runs: Seq<Run>, current: InlineStyle, i: int)
    requires
        0 <= i < runs.len(),
    ensures
        ({
            let from = if i == 0 {
                current
            } else {
                runs[i - 1].1
            };
            let code = if runs[i].1 == from {
                Seq::<char>::empty()
            } else if from == plain_style() {
                style_code(runs[i].1)
            } else {
                "\x1b[0m"@ + style_code(runs[i].1)
            };
            holds_part(ansi_after(runs, current), code + runs[i].0)
        }),
    decreases i,
{
    let from = if i == 0 {
        current
    } else {
        runs[i - 1].1
    };
    let code = if runs[i].1 == from {
        Seq::<char>::empty()
    } else if from == plain_style() {
        style_code(runs[i].1)
    } else {
        "\x1b[0m"@ + style_code(runs[i].1)
    };
    let rest = runs.drop_first();
    let head = switch_code(current, runs[0].1) + runs[0].0;
    let later = ansi_after(rest, runs[0].1);
    let none = Seq::<char>::empty();
    if i == 0 {
        assert(switch_code(from, runs[0].1) =~= code);
        lemma_holds_part(none, code + runs[0].0, later);
        assert(ansi_after(runs, current) =~= none + (code + runs[0].0) + later);
    } else {
        runs_are_shown_in_their_styles(rest, runs[0].1, i - 1);
        assert(rest[i - 1] == runs[i]);
        assert(i > 1 ==> rest[i - 2] == runs[i - 1]);
        assert(holds_part(later, code + runs[i].0));
        let (before, behind) = choose|before: Seq<char>, behind: Seq<char>|
            later == #[trigger] (before + (code + runs[i].0) + behind);
        lemma_holds_part(head + before, code + runs[i].0, behind);
        assert(ansi_after(runs, current) =~= (head + before) + (code + runs[i].0) + behind);
    }
}

} // verus!
