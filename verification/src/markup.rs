//! Text with style directives such as `#[fg=blue,bold]`.
use vstd::prelude::*;
use vstd::slice::slice_subrange;

use crate::map::Record;
use crate::style::{
    gathering_keeps_glyphs, glyphs, narrow_glyphs, paint, plain, plain_style, push_run, runs_of,
    runs_of_narrow_text_are_narrow, text_is_that_of_glyphs, unstyled, ColorSpec, Glyph,
    InlineStyle, Run, StyledText,
};
use crate::text::{
    all_digits, all_white, begins_with, blanks_around_a_text_are_trimmed, chars_of, cut, decimal,
    digit_value, digits_value, fields, find_char, is_white, lemma_cut, lemma_cut_at, lemma_decimal,
    lemma_trimmed_same, number, number_reads_decimal, parse_number, pieces, put_between, spells,
    split, strip_prefix, texts_are_cut_where_they_were_joined, trim, trimmed, trimmed_end,
    trimmed_start, unsigned_digits,
};
use crate::width::{measure, narrow, narrow_text, text_columns, text_width};

verus! {

// ---------------------------------------------------------------------------------------
// Colour names
// ---------------------------------------------------------------------------------------

/// The lower case of a character, where that is a single ASCII character: of the ASCII
/// capitals and of the Kelvin sign. Any other character stands for itself.
pub open spec fn ascii_lower(c: char) -> char {
    if 'A' <= c <= 'Z' {
        (c as u32 + 32) as char
    } else if c == '\u{212A}' {
        'k'
    } else {
        c
    }
}

/// A text with each character in lower case, as far as [`ascii_lower`] goes.
pub open spec fn lowered(s: Seq<char>) -> Seq<char> {
    s.map_values(|c: char| ascii_lower(c))
}

fn to_lower(c: char) -> (r: char)
    ensures
        r == ascii_lower(c),
{
    if 'A' <= c && c <= 'Z' {
        ((c as u8) + 32) as char
    } else if c == '\u{212A}' {
        'k'
    } else {
        c
    }
}

/// A text in lower case, as far as a comparison with ASCII words can tell.
pub fn lower_case(s: &[char]) -> (r: Vec<char>)
    ensures
        r@ == lowered(s@),
{
    let mut r: Vec<char> = Vec::new();
    let mut i: usize = 0;
    while i < s.len()
        invariant
            i <= s.len(),
            r@ == lowered(s@.take(i as int)),
        decreases s.len() - i,
    {
        r.push(to_lower(s[i]));
        i = i + 1;
        assert(r@ =~= lowered(s@.take(i as int)));
    }
    assert(s@.take(s@.len() as int) =~= s@);
    r
}

/// The colour with the given name in lower case; the default for an unknown name.
pub open spec fn color_named(name: Seq<char>) -> ColorSpec {
    if name == "accent"@ || name == "primary"@ {
        ColorSpec::EightBit(39)
    } else if name == "secondary"@ {
        ColorSpec::EightBit(75)
    } else if name == "tertiary"@ {
        ColorSpec::EightBit(141)
    } else if name == "muted"@ || name == "quaternary"@ {
        ColorSpec::EightBit(245)
    } else if name == "dim"@ || name == "dimmed"@ {
        ColorSpec::EightBit(240)
    } else if name == "black"@ {
        ColorSpec::EightBit(0)
    } else if name == "red"@ || name == "error"@ || name == "warning"@ {
        ColorSpec::EightBit(196)
    } else if name == "green"@ || name == "success"@ || name == "ok"@ {
        ColorSpec::EightBit(82)
    } else if name == "yellow"@ {
        ColorSpec::EightBit(226)
    } else if name == "blue"@ {
        ColorSpec::EightBit(33)
    } else if name == "magenta"@ {
        ColorSpec::EightBit(201)
    } else if name == "cyan"@ {
        ColorSpec::EightBit(51)
    } else if name == "white"@ {
        ColorSpec::EightBit(15)
    } else if name == "orange"@ {
        ColorSpec::EightBit(208)
    } else if name == "gray"@ || name == "grey"@ {
        ColorSpec::EightBit(244)
    } else if name == "pink"@ {
        ColorSpec::EightBit(213)
    } else if name == "purple"@ {
        ColorSpec::EightBit(135)
    } else {
        ColorSpec::Default
    }
}

fn find_color(name: &[char]) -> (r: ColorSpec)
    ensures
        r == color_named(name@),
{
    if spells(name, "accent") || spells(name, "primary") {
        ColorSpec::EightBit(39)
    } else if spells(name, "secondary") {
        ColorSpec::EightBit(75)
    } else if spells(name, "tertiary") {
        ColorSpec::EightBit(141)
    } else if spells(name, "muted") || spells(name, "quaternary") {
        ColorSpec::EightBit(245)
    } else if spells(name, "dim") || spells(name, "dimmed") {
        ColorSpec::EightBit(240)
    } else if spells(name, "black") {
        ColorSpec::EightBit(0)
    } else if spells(name, "red") || spells(name, "error") || spells(name, "warning") {
        ColorSpec::EightBit(196)
    } else if spells(name, "green") || spells(name, "success") || spells(name, "ok") {
        ColorSpec::EightBit(82)
    } else if spells(name, "yellow") {
        ColorSpec::EightBit(226)
    } else if spells(name, "blue") {
        ColorSpec::EightBit(33)
    } else if spells(name, "magenta") {
        ColorSpec::EightBit(201)
    } else if spells(name, "cyan") {
        ColorSpec::EightBit(51)
    } else if spells(name, "white") {
        ColorSpec::EightBit(15)
    } else if spells(name, "orange") {
        ColorSpec::EightBit(208)
    } else if spells(name, "gray") || spells(name, "grey") {
        ColorSpec::EightBit(244)
    } else if spells(name, "pink") {
        ColorSpec::EightBit(213)
    } else if spells(name, "purple") {
        ColorSpec::EightBit(135)
    } else {
        ColorSpec::Default
    }
}

/// A byte in the given radix.
pub open spec fn byte(s: Seq<char>, radix: int) -> Option<u8> {
    match number(s, radix, 255) {
        Some(n) => Some(n as u8),
        None => None,
    }
}

fn parse_byte(s: &[char], radix: u64) -> (r: Option<u8>)
    requires
        radix == 10 || radix == 16,
    ensures
        r == byte(s@, radix as int),
{
    match parse_number(s, radix, 255) {
        Some(n) => Some(n as u8),
        None => None,
    }
}

/// The colour of three bytes, if all of them are there.
pub open spec fn rgb(r: Option<u8>, g: Option<u8>, b: Option<u8>) -> Option<ColorSpec> {
    match (r, g, b) {
        (Some(r), Some(g), Some(b)) => Some(ColorSpec::Rgb(r, g, b)),
        _ => None,
    }
}

/// A single hexadecimal digit, doubled: `f` is 255.
pub open spec fn hex_digit_doubled(c: char) -> Option<u8> {
    match byte(seq![c], 16) {
        Some(n) => Some((n * 17) as u8),
        None => None,
    }
}

/// The colour that hexadecimal digits stand for: one or two for each component.
pub open spec fn hex_color(s: Seq<char>) -> Option<ColorSpec> {
    if s.len() == 3 {
        rgb(hex_digit_doubled(s[0]), hex_digit_doubled(s[1]), hex_digit_doubled(s[2]))
    } else if s.len() == 6 {
        rgb(
            byte(s.subrange(0, 2), 16),
            byte(s.subrange(2, 4), 16),
            byte(s.subrange(4, 6), 16),
        )
    } else {
        None
    }
}

fn parse_hex_digit(hex: &[char], i: usize) -> (r: Option<u8>)
    requires
        i < hex.len(),
    ensures
        r == hex_digit_doubled(hex@[i as int]),
{
    let one = slice_subrange(hex, i, i + 1);
    assert(one@ =~= seq![hex@[i as int]]);
    match parse_byte(one, 16) {
        Some(n) => {
            proof {
                lemma_one_digit(hex@[i as int]);
            }
            Some(n * 17)
        },
        None => None,
    }
}

/// A number of one hexadecimal digit is below sixteen.
proof fn lemma_one_digit(c: char)
    ensures
        byte(seq![c], 16) matches Some(n) ==> n < 16,
{
    let s = seq![c];
    assert(s.drop_last() =~= Seq::<char>::empty());
    reveal_with_fuel(digits_value, 3);
}

fn parse_hex_color(hex: &[char]) -> (r: Option<ColorSpec>)
    ensures
        r == hex_color(hex@),
{
    if hex.len() == 3 {
        match (parse_hex_digit(hex, 0), parse_hex_digit(hex, 1), parse_hex_digit(hex, 2)) {
            (Some(r), Some(g), Some(b)) => Some(ColorSpec::Rgb(r, g, b)),
            _ => None,
        }
    } else if hex.len() == 6 {
        let r = parse_byte(slice_subrange(hex, 0, 2), 16);
        let g = parse_byte(slice_subrange(hex, 2, 4), 16);
        let b = parse_byte(slice_subrange(hex, 4, 6), 16);
        match (r, g, b) {
            (Some(r), Some(g), Some(b)) => Some(ColorSpec::Rgb(r, g, b)),
            _ => None,
        }
    } else {
        None
    }
}

/// The colour that three decimal bytes with commas between them stand for.
pub open spec fn rgb_color(s: Seq<char>) -> Option<ColorSpec> {
    let parts = fields(s, ',');
    if parts.len() == 3 {
        rgb(
            byte(trimmed(parts[0]), 10),
            byte(trimmed(parts[1]), 10),
            byte(trimmed(parts[2]), 10),
        )
    } else {
        None
    }
}

fn parse_rgb_func(inner: &[char]) -> (r: Option<ColorSpec>)
    ensures
        r == rgb_color(inner@),
{
    let parts = split(inner, ',');
    assert(pieces(parts@).len() == parts.len());
    if parts.len() != 3 {
        return None;
    }
    assert(pieces(parts@)[0] == parts@[0]@);
    assert(pieces(parts@)[1] == parts@[1]@);
    assert(pieces(parts@)[2] == parts@[2]@);
    let r = parse_byte(trim(parts[0]), 10);
    let g = parse_byte(trim(parts[1]), 10);
    let b = parse_byte(trim(parts[2]), 10);
    match (r, g, b) {
        (Some(r), Some(g), Some(b)) => Some(ColorSpec::Rgb(r, g, b)),
        _ => None,
    }
}

/// What stands between `open` and `close`, where a text begins with the one and ends with
/// the other.
pub open spec fn enclosed(s: Seq<char>, open: Seq<char>, close: char) -> Option<Seq<char>> {
    if begins_with(s, open) && s.len() > open.len() && s.last() == close {
        Some(s.subrange(open.len() as int, s.len() - 1))
    } else {
        None
    }
}

fn strip_enclosure<'a>(s: &'a [char], open: &str, close: char) -> (r: Option<&'a [char]>)
    ensures
        match r {
            Some(inner) => enclosed(s@, open@, close) == Some(inner@),
            None => enclosed(s@, open@, close) is None,
        },
{
    match strip_prefix(s, open) {
        Some(rest) => {
            let n: usize = rest.len();
            if n > 0 && rest[n - 1] == close {
                let inner = slice_subrange(rest, 0, n - 1);
                assert(inner@ =~= s@.subrange(open@.len() as int, s@.len() - 1));
                Some(inner)
            } else {
                None
            }
        },
        None => None,
    }
}

/// The colour that a text stands for: `#` with hexadecimal digits, `rgb(..)`, a number or a
/// name, tried in this order. What is none of these is the default colour.
pub open spec fn color_of(text: Seq<char>) -> ColorSpec {
    let name = trimmed(text);
    let hex = if begins_with(name, "#"@) {
        hex_color(name.skip(1))
    } else {
        None
    };
    let function = match enclosed(name, "rgb("@, ')') {
        Some(inner) => rgb_color(inner),
        None => None,
    };
    match (hex, function, byte(name, 10)) {
        (Some(color), _, _) => color,
        (None, Some(color), _) => color,
        (None, None, Some(n)) => ColorSpec::EightBit(n),
        (None, None, None) => color_named(lowered(name)),
    }
}

fn color_of_chars(text: &[char]) -> (r: ColorSpec)
    ensures
        r == color_of(text@),
{
    let name = trim(text);
    proof {
        reveal_strlit("#");
    }
    if let Some(hex) = strip_prefix(name, "#") {
        if let Some(color) = parse_hex_color(hex) {
            return color;
        }
    }
    if let Some(inner) = strip_enclosure(name, "rgb(", ')') {
        if let Some(color) = parse_rgb_func(inner) {
            return color;
        }
    }
    if let Some(n) = parse_byte(name, 10) {
        return ColorSpec::EightBit(n);
    }
    find_color(lower_case(name).as_slice())
}

/// Reads a colour.
pub fn parse_color_spec(name: &str) -> (r: ColorSpec)
    ensures
        r == color_of(name@),
{
    color_of_chars(chars_of(name).as_slice())
}

// ---------------------------------------------------------------------------------------
// Directives
// ---------------------------------------------------------------------------------------

/// A style after one part of a directive.
pub open spec fn style_with(style: InlineStyle, part: Seq<char>) -> InlineStyle {
    let p = trimmed(part);
    if begins_with(p, "fg="@) {
        InlineStyle { fg: color_of(p.skip(3)), ..style }
    } else if begins_with(p, "bg="@) {
        InlineStyle { bg: color_of(p.skip(3)), ..style }
    } else if p == "bold"@ {
        InlineStyle { bold: true, ..style }
    } else if p == "dim"@ {
        InlineStyle { dim: true, ..style }
    } else if p == "fill"@ {
        InlineStyle { fill: true, ..style }
    } else if p == "default"@ || p == "none"@ || p == "reset"@ {
        plain_style()
    } else {
        style
    }
}

/// The style after all parts of a directive, from the plain style on.
pub open spec fn style_of_parts(parts: Seq<Seq<char>>) -> InlineStyle
    decreases parts.len(),
{
    if parts.len() == 0 {
        plain_style()
    } else {
        style_with(style_of_parts(parts.drop_last()), parts.last())
    }
}

/// The style that a directive selects: its parts stand between commas.
pub open spec fn style_of(content: Seq<char>) -> InlineStyle {
    style_of_parts(fields(content, ','))
}

/// A part of a directive that takes the style back to the plain one.
pub open spec fn resets(part: Seq<char>) -> bool {
    trimmed(part) == "default"@ || trimmed(part) == "none"@ || trimmed(part) == "reset"@
}

/// The words of a directive differ from each other, and none of them names a colour.
proof fn lemma_words_differ()
    ensures
        "bold"@ != "dim"@,
        "bold"@ != "fill"@,
        "dim"@ != "fill"@,
        !begins_with("bold"@, "fg="@),
        !begins_with("bold"@, "bg="@),
        !begins_with("dim"@, "fg="@),
        !begins_with("dim"@, "bg="@),
        !begins_with("fill"@, "fg="@),
        !begins_with("fill"@, "bg="@),
        !begins_with("default"@, "fg="@),
        !begins_with("default"@, "bg="@),
        !begins_with("none"@, "fg="@),
        !begins_with("none"@, "bg="@),
        !begins_with("reset"@, "fg="@),
        !begins_with("reset"@, "bg="@),
        "default"@ != "bold"@ && "default"@ != "dim"@ && "default"@ != "fill"@,
        "none"@ != "bold"@ && "none"@ != "dim"@ && "none"@ != "fill"@,
        "reset"@ != "bold"@ && "reset"@ != "dim"@ && "reset"@ != "fill"@,
        forall|p: Seq<char>| #[trigger] begins_with(p, "fg="@) ==> !begins_with(p, "bg="@),
{
    reveal_strlit("bold");
    reveal_strlit("dim");
    reveal_strlit("fill");
    reveal_strlit("default");
    reveal_strlit("none");
    reveal_strlit("reset");
    reveal_strlit("fg=");
    reveal_strlit("bg=");
    assert("bold"@[0] == 'b' && "bold"@[1] == 'o');
    assert("dim"@[0] == 'd' && "dim"@[1] == 'i');
    assert("fill"@[0] == 'f' && "fill"@[1] == 'i');
    assert("default"@[0] == 'd' && "default"@[1] == 'e');
    assert("none"@[0] == 'n');
    assert("reset"@[0] == 'r');
    assert("fg="@[0] == 'f' && "fg="@[1] == 'g' && "fg="@.len() == 3);
    assert("bg="@[0] == 'b' && "bg="@[1] == 'g' && "bg="@.len() == 3);
    assert forall|p: Seq<char>, q: Seq<char>, i: int|
        begins_with(p, q) && 0 <= i < q.len() implies #[trigger] p[i] == #[trigger] q[i] by {
        assert(p.take(q.len() as int)[i] == q[i]);
    }
}

/// Of a directive without a part that takes the style back: an attribute is on just if some
/// part is its word, whatever else there is, and each of the two colours is that of the last
/// part that gives one, or the default where none does.
pub proof fn each_part_sets_what_it_names(parts: Seq<Seq<char>>)
    requires
        forall|i: int| 0 <= i < parts.len() ==> !resets(#[trigger] parts[i]),
    ensures
        style_of_parts(parts).bold <==> exists|i: int|
            0 <= i < parts.len() && trimmed(#[trigger] parts[i]) == "bold"@,
        style_of_parts(parts).dim <==> exists|i: int|
            0 <= i < parts.len() && trimmed(#[trigger] parts[i]) == "dim"@,
        style_of_parts(parts).fill <==> exists|i: int|
            0 <= i < parts.len() && trimmed(#[trigger] parts[i]) == "fill"@,
        forall|i: int|
            0 <= i < parts.len() && begins_with(trimmed(#[trigger] parts[i]), "fg="@) && (forall|
                j: int,
            |
                i < j < parts.len() ==> !begins_with(trimmed(#[trigger] parts[j]), "fg="@))
                ==> style_of_parts(parts).fg == color_of(trimmed(parts[i]).skip(3)),
        (forall|i: int|
            0 <= i < parts.len() ==> !begins_with(trimmed(#[trigger] parts[i]), "fg="@))
            ==> style_of_parts(parts).fg == ColorSpec::Default,
        forall|i: int|
            0 <= i < parts.len() && begins_with(trimmed(#[trigger] parts[i]), "bg="@) && (forall|
                j: int,
            |
                i < j < parts.len() ==> !begins_with(trimmed(#[trigger] parts[j]), "bg="@))
                ==> style_of_parts(parts).bg == color_of(trimmed(parts[i]).skip(3)),
        (forall|i: int|
            0 <= i < parts.len() ==> !begins_with(trimmed(#[trigger] parts[i]), "bg="@))
            ==> style_of_parts(parts).bg == ColorSpec::Default,
    decreases parts.len(),
{
    if parts.len() > 0 {
        lemma_words_differ();
        let front = parts.drop_last();
        let last = parts.len() - 1;
        assert forall|i: int| 0 <= i < front.len() implies !resets(#[trigger] front[i]) by {
            assert(front[i] == parts[i]);
        }
        each_part_sets_what_it_names(front);
        assert(!resets(parts[last]));
        assert(parts.last() == parts[last]);
        if exists|i: int| 0 <= i < parts.len() && trimmed(#[trigger] parts[i]) == "bold"@ {
            let i = choose|i: int| 0 <= i < parts.len() && trimmed(#[trigger] parts[i]) == "bold"@;
            if i < last {
                assert(trimmed(front[i]) == "bold"@);
            }
        }
        if style_of_parts(front).bold {
            let i = choose|i: int| 0 <= i < front.len() && trimmed(#[trigger] front[i]) == "bold"@;
            assert(trimmed(parts[i]) == "bold"@);
        }
        if exists|i: int| 0 <= i < parts.len() && trimmed(#[trigger] parts[i]) == "dim"@ {
            let i = choose|i: int| 0 <= i < parts.len() && trimmed(#[trigger] parts[i]) == "dim"@;
            if i < last {
                assert(trimmed(front[i]) == "dim"@);
            }
        }
        if style_of_parts(front).dim {
            let i = choose|i: int| 0 <= i < front.len() && trimmed(#[trigger] front[i]) == "dim"@;
            assert(trimmed(parts[i]) == "dim"@);
        }
        if exists|i: int| 0 <= i < parts.len() && trimmed(#[trigger] parts[i]) == "fill"@ {
            let i = choose|i: int| 0 <= i < parts.len() && trimmed(#[trigger] parts[i]) == "fill"@;
            if i < last {
                assert(trimmed(front[i]) == "fill"@);
            }
        }
        if style_of_parts(front).fill {
            let i = choose|i: int| 0 <= i < front.len() && trimmed(#[trigger] front[i]) == "fill"@;
            assert(trimmed(parts[i]) == "fill"@);
        }
        assert forall|i: int|
            0 <= i < parts.len() && begins_with(trimmed(#[trigger] parts[i]), "fg="@) && (forall|
                j: int,
            |
                i < j < parts.len() ==> !begins_with(trimmed(#[trigger] parts[j]), "fg="@)) implies style_of_parts(
            parts,
        ).fg == color_of(trimmed(parts[i]).skip(3)) by {
            if i < last {
                assert(!begins_with(trimmed(parts[last]), "fg="@));
                assert(begins_with(trimmed(front[i]), "fg="@));
                assert forall|j: int| i < j < front.len() implies !begins_with(
                    trimmed(#[trigger] front[j]),
                    "fg="@,
                ) by {
                    assert(front[j] == parts[j]);
                }
            }
        }
        if forall|i: int|
            0 <= i < parts.len() ==> !begins_with(trimmed(#[trigger] parts[i]), "fg="@) {
            assert(!begins_with(trimmed(parts[last]), "fg="@));
            assert forall|i: int| 0 <= i < front.len() implies !begins_with(
                trimmed(#[trigger] front[i]),
                "fg="@,
            ) by {
                assert(front[i] == parts[i]);
            }
        }
        assert forall|i: int|
            0 <= i < parts.len() && begins_with(trimmed(#[trigger] parts[i]), "bg="@) && (forall|
                j: int,
            |
                i < j < parts.len() ==> !begins_with(trimmed(#[trigger] parts[j]), "bg="@)) implies style_of_parts(
            parts,
        ).bg == color_of(trimmed(parts[i]).skip(3)) by {
            if i < last {
                assert(!begins_with(trimmed(parts[last]), "bg="@));
                assert(begins_with(trimmed(front[i]), "bg="@));
                assert forall|j: int| i < j < front.len() implies !begins_with(
                    trimmed(#[trigger] front[j]),
                    "bg="@,
                ) by {
                    assert(front[j] == parts[j]);
                }
            }
        }
        if forall|i: int|
            0 <= i < parts.len() ==> !begins_with(trimmed(#[trigger] parts[i]), "bg="@) {
            assert(!begins_with(trimmed(parts[last]), "bg="@));
            assert forall|i: int| 0 <= i < front.len() implies !begins_with(
                trimmed(#[trigger] front[i]),
                "bg="@,
            ) by {
                assert(front[i] == parts[i]);
            }
        }
    }
}

/// A part that takes the style back leaves nothing of what stands before it: the style is that
/// of the parts behind it alone.
pub proof fn resets_leave_what_follows(
    before: Seq<Seq<char>>,
    part: Seq<char>,
    after: Seq<Seq<char>>,
)
    requires
        resets(part),
    ensures
        style_of_parts(before.push(part) + after) == style_of_parts(after),
    decreases after.len(),
{
    let all = before.push(part) + after;
    if after.len() == 0 {
        lemma_words_differ();
        assert(all =~= before.push(part));
        assert(all.drop_last() =~= before);
        assert(all.last() == part);
    } else {
        resets_leave_what_follows(before, part, after.drop_last());
        assert(all.drop_last() =~= before.push(part) + after.drop_last());
        assert(all.last() == after.last());
    }
}

/// Every part of one directive stands in another one too, but for blanks around it.
#[verifier::opaque]
pub open spec fn parts_among(a: Seq<Seq<char>>, b: Seq<Seq<char>>) -> bool {
    forall|i: int|
        0 <= i < a.len() ==> exists|j: int|
            0 <= j < b.len() && trimmed(#[trigger] b[j]) == trimmed(#[trigger] a[i])
}

/// All parts of a directive that begin with a word are the same, but for blanks around them.
pub open spec fn one_such_part(parts: Seq<Seq<char>>, word: Seq<char>) -> bool {
    forall|i: int, j: int|
        0 <= i < parts.len() && 0 <= j < parts.len() && begins_with(
            trimmed(#[trigger] parts[i]),
            word,
        ) && begins_with(trimmed(#[trigger] parts[j]), word) ==> trimmed(parts[i]) == trimmed(
            parts[j],
        )
}

/// The last part that begins with a word, where there is one.
proof fn lemma_last_such_part(parts: Seq<Seq<char>>, word: Seq<char>, i: int) -> (last: int)
    requires
        0 <= i < parts.len(),
        begins_with(trimmed(parts[i]), word),
    ensures
        i <= last < parts.len(),
        begins_with(trimmed(parts[last]), word),
        forall|j: int| last < j < parts.len() ==> !begins_with(trimmed(#[trigger] parts[j]), word),
    decreases parts.len() - i,
{
    if forall|j: int| i < j < parts.len() ==> !begins_with(trimmed(#[trigger] parts[j]), word) {
        i
    } else {
        let next = choose|j: int|
            i < j < parts.len() && begins_with(trimmed(#[trigger] parts[j]), word);
        lemma_last_such_part(parts, word, next)
    }
}

proof fn lemma_same_color(a: Seq<Seq<char>>, b: Seq<Seq<char>>, word: Seq<char>)
    requires
        parts_among(a, b),
        parts_among(b, a),
        one_such_part(a, word),
    ensures
        (exists|i: int| 0 <= i < a.len() && begins_with(trimmed(#[trigger] a[i]), word)) <==> (
        exists|i: int| 0 <= i < b.len() && begins_with(trimmed(#[trigger] b[i]), word)),
        forall|i: int, j: int|
            0 <= i < a.len() && 0 <= j < b.len() && begins_with(trimmed(#[trigger] a[i]), word)
                && begins_with(trimmed(#[trigger] b[j]), word) ==> trimmed(a[i]) == trimmed(b[j]),
{
    reveal(parts_among);
    if exists|i: int| 0 <= i < a.len() && begins_with(trimmed(#[trigger] a[i]), word) {
        let i = choose|i: int| 0 <= i < a.len() && begins_with(trimmed(#[trigger] a[i]), word);
        let j = choose|j: int| 0 <= j < b.len() && trimmed(#[trigger] b[j]) == trimmed(a[i]);
        assert(begins_with(trimmed(b[j]), word));
    }
    if exists|i: int| 0 <= i < b.len() && begins_with(trimmed(#[trigger] b[i]), word) {
        let i = choose|i: int| 0 <= i < b.len() && begins_with(trimmed(#[trigger] b[i]), word);
        let j = choose|j: int| 0 <= j < a.len() && trimmed(#[trigger] a[j]) == trimmed(b[i]);
        assert(begins_with(trimmed(a[j]), word));
    }
    assert forall|i: int, j: int|
        0 <= i < a.len() && 0 <= j < b.len() && begins_with(trimmed(#[trigger] a[i]), word)
            && begins_with(trimmed(#[trigger] b[j]), word) implies trimmed(a[i]) == trimmed(b[j]) by {
        let k = choose|k: int| 0 <= k < a.len() && trimmed(#[trigger] a[k]) == trimmed(b[j]);
        assert(begins_with(trimmed(a[k]), word));
    }
}

/// The order of the parts of a directive does not matter, nor how often each is written, as
/// long as none takes the style back and no two give different colours of the same kind.
pub proof fn parts_can_stand_in_any_order(a: Seq<Seq<char>>, b: Seq<Seq<char>>)
    requires
        forall|i: int| 0 <= i < a.len() ==> !resets(#[trigger] a[i]),
        parts_among(a, b),
        parts_among(b, a),
        one_such_part(a, "fg="@),
        one_such_part(a, "bg="@),
    ensures
        style_of_parts(a) == style_of_parts(b),
{
    assert forall|j: int| 0 <= j < b.len() implies !resets(#[trigger] b[j]) by {
        reveal(parts_among);
        let i = choose|i: int| 0 <= i < a.len() && trimmed(#[trigger] a[i]) == trimmed(b[j]);
        assert(!resets(a[i]));
    }
    each_part_sets_what_it_names(a);
    each_part_sets_what_it_names(b);
    lemma_same_word(a, b, "bold"@);
    lemma_same_word(a, b, "dim"@);
    lemma_same_word(a, b, "fill"@);
    lemma_same_color(a, b, "fg="@);
    lemma_same_color(a, b, "bg="@);
    if exists|i: int| 0 <= i < a.len() && begins_with(trimmed(#[trigger] a[i]), "fg="@) {
        let i = choose|i: int| 0 <= i < a.len() && begins_with(trimmed(#[trigger] a[i]), "fg="@);
        let j = choose|j: int| 0 <= j < b.len() && begins_with(trimmed(#[trigger] b[j]), "fg="@);
        let x = lemma_last_such_part(a, "fg="@, i);
        let y = lemma_last_such_part(b, "fg="@, j);
        assert(trimmed(a[x]) == trimmed(b[y]));
    }
    if exists|i: int| 0 <= i < a.len() && begins_with(trimmed(#[trigger] a[i]), "bg="@) {
        let i = choose|i: int| 0 <= i < a.len() && begins_with(trimmed(#[trigger] a[i]), "bg="@);
        let j = choose|j: int| 0 <= j < b.len() && begins_with(trimmed(#[trigger] b[j]), "bg="@);
        let x = lemma_last_such_part(a, "bg="@, i);
        let y = lemma_last_such_part(b, "bg="@, j);
        assert(trimmed(a[x]) == trimmed(b[y]));
    }
}

proof fn lemma_same_word(a: Seq<Seq<char>>, b: Seq<Seq<char>>, word: Seq<char>)
    requires
        parts_among(a, b),
        parts_among(b, a),
    ensures
        (exists|i: int| 0 <= i < a.len() && trimmed(#[trigger] a[i]) == word) <==> (exists|i: int|
            0 <= i < b.len() && trimmed(#[trigger] b[i]) == word),
{
    reveal(parts_among);
    if exists|i: int| 0 <= i < a.len() && trimmed(#[trigger] a[i]) == word {
        let i = choose|i: int| 0 <= i < a.len() && trimmed(#[trigger] a[i]) == word;
        let j = choose|j: int| 0 <= j < b.len() && trimmed(#[trigger] b[j]) == trimmed(a[i]);
        assert(trimmed(b[j]) == word);
    }
    if exists|i: int| 0 <= i < b.len() && trimmed(#[trigger] b[i]) == word {
        let i = choose|i: int| 0 <= i < b.len() && trimmed(#[trigger] b[i]) == word;
        let j = choose|j: int| 0 <= j < a.len() && trimmed(#[trigger] a[j]) == trimmed(b[i]);
        assert(trimmed(a[j]) == word);
    }
}

/// The style of a directive is that of its parts, which are what stands between its commas: a
/// directive put together from texts without a comma selects what these texts select.
pub proof fn directives_are_made_of_their_parts(parts: Seq<Seq<char>>)
    requires
        parts.len() > 0,
        forall|i: int| 0 <= i < parts.len() ==> !(#[trigger] parts[i]).contains(','),
    ensures
        style_of(put_between(parts, ',')) == style_of_parts(parts),
{
    texts_are_cut_where_they_were_joined(parts, ',');
}

fn apply_part(style: InlineStyle, part: &[char]) -> (r: InlineStyle)
    ensures
        r == style_with(style, part@),
{
    let p = trim(part);
    proof {
        reveal_strlit("fg=");
        reveal_strlit("bg=");
    }
    if let Some(color) = strip_prefix(p, "fg=") {
        InlineStyle { fg: color_of_chars(color), ..style }
    } else if let Some(color) = strip_prefix(p, "bg=") {
        InlineStyle { bg: color_of_chars(color), ..style }
    } else if spells(p, "bold") {
        InlineStyle { bold: true, ..style }
    } else if spells(p, "dim") {
        InlineStyle { dim: true, ..style }
    } else if spells(p, "fill") {
        InlineStyle { fill: true, ..style }
    } else if spells(p, "default") || spells(p, "none") || spells(p, "reset") {
        InlineStyle::default()
    } else {
        style
    }
}

fn style_of_chars(content: &[char]) -> (r: InlineStyle)
    ensures
        r == style_of(content@),
{
    let parts = split(content, ',');
    let ghost all = pieces(parts@);
    let mut style = InlineStyle::default();
    let mut i: usize = 0;
    while i < parts.len()
        invariant
            i <= parts.len(),
            all == pieces(parts@),
            style == style_of_parts(all.take(i as int)),
        decreases parts.len() - i,
    {
        style = apply_part(style, parts[i]);
        i = i + 1;
        proof {
            let t = all.take(i as int);
            assert(t.drop_last() =~= all.take(i - 1));
            assert(t.last() == parts@[i - 1]@);
        }
    }
    assert(all.take(all.len() as int) =~= all);
    style
}

/// Reads the content of a directive.
pub fn parse_style_directive(content: &str) -> (r: InlineStyle)
    ensures
        r == style_of(content@),
{
    style_of_chars(chars_of(content).as_slice())
}

/// The style that a text stands for, with or without `#[` and `]` around it.
pub open spec fn style_of_literal(literal: Seq<char>) -> InlineStyle {
    match enclosed(trimmed(literal), "#["@, ']') {
        Some(content) => style_of(content),
        None => style_of(trimmed(literal)),
    }
}

/// Reads a style, with or without `#[` and `]` around it.
pub fn parse_style_literal(literal: &str) -> (r: InlineStyle)
    ensures
        r == style_of_literal(literal@),
{
    let chars = chars_of(literal);
    let literal = trim(chars.as_slice());
    match strip_enclosure(literal, "#[", ']') {
        Some(content) => style_of_chars(content),
        None => style_of_chars(literal),
    }
}

/// A text begins with a directive that ends.
pub open spec fn opens_directive(s: Seq<char>) -> bool {
    begins_with(s, "#["@) && cut(s.skip(2), ']') < s.skip(2).len()
}

/// A directive begins somewhere in a text and ends.
pub open spec fn holds_directive(s: Seq<char>) -> bool {
    exists|i: int| 0 <= i <= s.len() && #[trigger] opens_directive(s.skip(i))
}

/// Whether a directive begins and ends somewhere in a text.
pub fn has_style_directive(input: &str) -> (r: bool)
    ensures
        r == holds_directive(input@),
{
    let chars = chars_of(input);
    let mut i: usize = 0;
    proof {
        reveal_strlit("#[");
    }
    while i < chars.len()
        invariant
            i <= chars.len(),
            chars@ == input@,
            forall|j: int| 0 <= j < i ==> !#[trigger] opens_directive(input@.skip(j)),
        decreases chars.len() - i,
    {
        if directive_end(slice_subrange(chars.as_slice(), i, chars.len())).is_some() {
            assert(chars@.subrange(i as int, chars@.len() as int) =~= input@.skip(i as int));
            return true;
        }
        assert(chars@.subrange(i as int, chars@.len() as int) =~= input@.skip(i as int));
        i = i + 1;
    }
    assert(!opens_directive(input@.skip(input@.len() as int)));
    false
}

/// Where the content of the directive at the front of a text ends, counted from its start.
fn directive_end(s: &[char]) -> (r: Option<usize>)
    ensures
        match r {
            Some(k) => opens_directive(s@) && k == cut(s@.skip(2), ']') && k + 3 <= s@.len(),
            None => !opens_directive(s@),
        },
{
    proof {
        reveal_strlit("#[");
    }
    match strip_prefix(s, "#[") {
        Some(body) => {
            let k: usize = find_char(body, ']');
            if k < body.len() {
                Some(k)
            } else {
                None
            }
        },
        None => None,
    }
}

/// The characters of a text, each in the style of the directive before it. The directives
/// themselves are not among them.
pub open spec fn styled_glyphs(s: Seq<char>, style: InlineStyle) -> Seq<Glyph>
    decreases s.len(),
{
    if s.len() == 0 {
        Seq::empty()
    } else if opens_directive(s) {
        let k = cut(s.skip(2), ']');
        proof {
            reveal_strlit("#[");
            lemma_cut(s.skip(2), ']');
        }
        styled_glyphs(s.skip(k + 3), style_of(s.skip(2).take(k)))
    } else {
        seq![(s[0], style)] + styled_glyphs(s.drop_first(), style)
    }
}

/// The runs of a text with directives.
pub open spec fn styled_runs(s: Seq<char>) -> Seq<Run> {
    runs_of(styled_glyphs(s, plain_style()))
}

/// A text added to runs is added character by character.
proof fn lemma_push_paint(g: Seq<Glyph>, text: Seq<char>, style: InlineStyle)
    ensures
        runs_of(g + paint(text, style)) == push_run(runs_of(g), text, style),
    decreases text.len(),
{
    let all = g + paint(text, style);
    if text.len() == 0 {
        assert(all =~= g);
    } else {
        let rest = text.drop_last();
        lemma_push_paint(g, rest, style);
        assert(all.drop_last() =~= g + paint(rest, style));
        assert(all.last() == (text.last(), style));
        assert(text =~= rest + seq![text.last()]);
        let before = runs_of(g);
        if rest.len() == 0 {
            assert(text =~= seq![text.last()]);
        } else if before.len() > 0 && before.last().1 == style {
            let joined = before.drop_last().push((before.last().0 + rest, style));
            assert(joined.drop_last() =~= before.drop_last());
            assert(before.last().0 + rest + seq![text.last()] =~= before.last().0 + text);
        } else {
            let added = before.push((rest, style));
            assert(added.drop_last() =~= before);
        }
    }
}

/// Reads a text with directives.
pub fn parse_styled_string(input: &str) -> (r: StyledText)
    ensures
        r@ == styled_runs(input@),
{
    let chars = chars_of(input);
    let s = chars.as_slice();
    let mut result = StyledText::new();
    let mut current = InlineStyle::default();
    let mut literal = String::new();
    let mut i: usize = 0;
    let ghost mut done: Seq<Glyph> = Seq::empty();
    proof {
        assert(s@.skip(0) =~= s@);
        assert(literal@ =~= Seq::<char>::empty());
        let all = styled_glyphs(s@, plain_style());
        assert(all =~= done + paint(literal@, current) + all);
    }
    while i < s.len()
        invariant
            i <= s.len(),
            s@ == input@,
            result@ == runs_of(done),
            styled_glyphs(s@, plain_style()) == done + paint(literal@, current) + styled_glyphs(
                s@.skip(i as int),
                current,
            ),
        decreases s.len() - i,
    {
        let rest = slice_subrange(s, i, s.len());
        let ghost tail = s@.skip(i as int);
        assert(rest@ =~= tail);
        match directive_end(rest) {
            Some(k) => {
                proof {
                    lemma_push_paint(done, literal@, current);
                    reveal_strlit("#[");
                }
                result.push(literal.as_str(), current);
                let body = slice_subrange(rest, 2, 2 + k);
                assert(body@ =~= tail.skip(2).take(k as int));
                proof {
                    done = done + paint(literal@, current);
                }
                literal = String::new();
                current = style_of_chars(body);
                i = i + k + 3;
                proof {
                    assert(s@.skip(i as int) =~= tail.skip(k + 3));
                    assert(literal@ =~= Seq::<char>::empty());
                    assert(done =~= done + paint(literal@, current));
                }
            },
            None => {
                let ghost before = literal@;
                literal.push(s[i]);
                i = i + 1;
                proof {
                    assert(tail.drop_first() =~= s@.skip(i as int));
                    assert(tail[0] == s@[i - 1]);
                    let after = styled_glyphs(s@.skip(i as int), current);
                    assert(done + paint(before, current) + (seq![(tail[0], current)] + after)
                        =~= done + paint(literal@, current) + after);
                }
            },
        }
    }
    proof {
        lemma_push_paint(done, literal@, current);
        assert(s@.skip(i as int) =~= Seq::<char>::empty());
        let g = done + paint(literal@, current);
        assert(g + styled_glyphs(s@.skip(i as int), current) =~= g);
    }
    result.push(literal.as_str(), current);
    result
}

/// A text in one style.
pub fn apply_default_style(default_style: &InlineStyle, plain_text: &str) -> (r: StyledText)
    ensures
        r@ == push_run(Seq::empty(), plain_text@, *default_style),
{
    let mut styled = StyledText::new();
    styled.push(plain_text, *default_style);
    styled
}

// ---------------------------------------------------------------------------------------
// Cells
// ---------------------------------------------------------------------------------------

/// The value of a cell: what was written, and what it looks like.
#[derive(Debug, Clone, PartialEq, Eq)]
pub struct CellState {
    pub raw_input: String,
    pub plain_text: String,
    pub styled_text: StyledText,
    pub had_inline_style: bool,
}

/// What a [`CellState`] stands for.
#[verifier::ext_equal]
pub struct CellView {
    pub raw_input: Seq<char>,
    pub plain_text: Seq<char>,
    pub styled_text: Seq<Run>,
    pub had_inline_style: bool,
}

impl View for CellState {
    type V = CellView;

    open spec fn view(&self) -> CellView {
        CellView {
            raw_input: self.raw_input@,
            plain_text: self.plain_text@,
            styled_text: self.styled_text@,
            had_inline_style: self.had_inline_style,
        }
    }
}

/// What the cells of a row stand for.
pub open spec fn cell_views(cells: Seq<Option<CellState>>) -> Seq<Option<CellView>> {
    cells.map_values(
        |c: Option<CellState>|
            match c {
                Some(cell) => Some(cell@),
                None => None,
            },
    )
}

/// The cell for a written text: with directives it has their styles, without any it has the
/// given style.
pub open spec fn cell_of_raw(raw: Seq<char>, style: InlineStyle) -> CellView {
    CellView {
        raw_input: raw,
        plain_text: plain(styled_runs(raw)),
        styled_text: if holds_directive(raw) {
            styled_runs(raw)
        } else {
            push_run(Seq::empty(), plain(styled_runs(raw)), style)
        },
        had_inline_style: holds_directive(raw),
    }
}

/// The cell for a text in which nothing is a directive.
pub open spec fn cell_of_plain(text: Seq<char>, style: InlineStyle) -> CellView {
    CellView {
        raw_input: text,
        plain_text: text,
        styled_text: push_run(Seq::empty(), text, style),
        had_inline_style: false,
    }
}

impl CellState {
    /// The cell for a written text, which may hold directives.
    pub fn from_raw(raw_input: &str, default_style: &InlineStyle) -> (r: Self)
        ensures
            r@ == cell_of_raw(raw_input@, *default_style),
    {
        let had_inline_style = has_style_directive(raw_input);
        let parsed = parse_styled_string(raw_input);
        let plain_text = parsed.plain_text();
        let styled_text = if had_inline_style {
            parsed
        } else {
            apply_default_style(default_style, plain_text.as_str())
        };
        CellState { raw_input: raw_input.to_owned(), plain_text, styled_text, had_inline_style }
    }

    /// The cell for a text in which nothing is a directive.
    pub fn from_plain_text(plain_text: &str, default_style: &InlineStyle) -> (r: Self)
        ensures
            r@ == cell_of_plain(plain_text@, *default_style),
    {
        CellState {
            raw_input: plain_text.to_owned(),
            plain_text: plain_text.to_owned(),
            styled_text: apply_default_style(default_style, plain_text),
            had_inline_style: false,
        }
    }

    /// The displayed width of the text.
    pub fn display_width(&self) -> (w: usize)
        ensures
            w == text_width(self@.plain_text),
            narrow_text(self@.plain_text) ==> w == self@.plain_text.len() && w == text_columns(
                self@.plain_text,
            ),
    {
        measure(self.plain_text.as_str())
    }
}

impl Record for CellState {
    fn duplicate(&self) -> (r: Self) {
        CellState {
            raw_input: self.raw_input.clone(),
            plain_text: self.plain_text.clone(),
            styled_text: self.styled_text.duplicate(),
            had_inline_style: self.had_inline_style,
        }
    }

    fn agrees(&self, other: &Self) -> (r: bool) {
        self.raw_input.agrees(&other.raw_input) && self.plain_text.agrees(&other.plain_text)
            && self.styled_text.agrees(&other.styled_text) && self.had_inline_style
            == other.had_inline_style
    }
}

// ---------------------------------------------------------------------------------------
// Laws
// ---------------------------------------------------------------------------------------

/// A text without directives keeps every character, in the style it starts in.
pub proof fn text_without_directives_is_kept(s: Seq<char>, style: InlineStyle)
    requires
        !holds_directive(s),
    ensures
        styled_glyphs(s, style) == paint(s, style),
    decreases s.len(),
{
    if s.len() == 0 {
        assert(paint(s, style) =~= Seq::<Glyph>::empty());
    } else {
        assert(s.skip(0) =~= s);
        assert(!opens_directive(s.skip(0)));
        let rest = s.drop_first();
        assert forall|i: int| 0 <= i <= rest.len() implies !#[trigger] opens_directive(
            rest.skip(i),
        ) by {
            assert(rest.skip(i) =~= s.skip(i + 1));
        }
        text_without_directives_is_kept(rest, style);
        assert(seq![(s[0], style)] + paint(rest, style) =~= paint(s, style));
    }
}

/// A cell written without directives holds the text as written, in the default style: as if
/// it had been given as plain text.
pub proof fn plain_writes_use_the_default_style(raw: Seq<char>, style: InlineStyle)
    requires
        !holds_directive(raw),
    ensures
        cell_of_raw(raw, style) == cell_of_plain(raw, style),
{
    text_without_directives_is_kept(raw, plain_style());
    lemma_push_paint(Seq::empty(), raw, plain_style());
    assert(Seq::<Glyph>::empty() + paint(raw, plain_style()) =~= paint(raw, plain_style()));
    gathering_keeps_glyphs(paint(raw, plain_style()));
    text_is_that_of_glyphs(styled_runs(raw));
    assert(unstyled(paint(raw, plain_style())) =~= raw);
}

/// Directives change how characters look and never which characters there are.
pub proof fn styles_do_not_change_the_text(s: Seq<char>, a: InlineStyle, b: InlineStyle)
    ensures
        unstyled(styled_glyphs(s, a)) == unstyled(styled_glyphs(s, b)),
    decreases s.len(),
{
    if s.len() > 0 && !opens_directive(s) {
        styles_do_not_change_the_text(s.drop_first(), a, b);
        let x = styled_glyphs(s.drop_first(), a);
        let y = styled_glyphs(s.drop_first(), b);
        assert(unstyled(seq![(s[0], a)] + x) =~= seq![s[0]] + unstyled(x));
        assert(unstyled(seq![(s[0], b)] + y) =~= seq![s[0]] + unstyled(y));
    }
}

/// The styled text of a cell shows the plain text of the cell.
pub proof fn styled_text_shows_the_plain_text(raw: Seq<char>, style: InlineStyle)
    ensures
        plain(cell_of_raw(raw, style).styled_text) == cell_of_raw(raw, style).plain_text,
        plain(cell_of_plain(raw, style).styled_text) == raw,
{
    lemma_one_run(raw, style);
    lemma_one_run(plain(styled_runs(raw)), style);
}

proof fn lemma_one_run(text: Seq<char>, style: InlineStyle)
    ensures
        plain(push_run(Seq::empty(), text, style)) == text,
{
    let runs = push_run(Seq::<Run>::empty(), text, style);
    if text.len() > 0 {
        assert(runs.drop_last() =~= Seq::<Run>::empty());
        assert(plain(runs.drop_last()) =~= Seq::<char>::empty());
        assert(plain(runs) =~= text);
    } else {
        assert(text =~= Seq::<char>::empty());
    }
}

/// The number of a colour, written in decimal, stands for that colour.
pub proof fn decimal_color_numbers_are_read_back(n: u8)
    ensures
        color_of(decimal(n as nat)) == ColorSpec::EightBit(n),
{
    let s = decimal(n as nat);
    number_reads_decimal(n as nat, 255);
    lemma_decimal(n as nat);
    assert(!is_white(s[0]));
    assert(!is_white(s.last()));
    assert(trimmed_start(s) == s);
    assert(trimmed_end(s) == s);
    reveal_strlit("#");
    reveal_strlit("rgb(");
    if begins_with(s, "#"@) {
        assert(s.take(1)[0] == '#');
    }
    if begins_with(s, "rgb("@) {
        assert(s.take(4)[0] == 'r');
    }
}

/// White space around a colour changes nothing.
pub proof fn blanks_around_a_color_change_nothing(
    before: Seq<char>,
    text: Seq<char>,
    behind: Seq<char>,
)
    requires
        all_white(before),
        all_white(behind),
    ensures
        color_of(before + text + behind) == color_of(text),
{
    blanks_around_a_text_are_trimmed(before, text, behind);
}

/// The byte that two hexadecimal digits write.
pub open spec fn hex_pair(high: char, low: char) -> int {
    digit_value(high, 16)->0 * 16 + digit_value(low, 16)->0
}

proof fn lemma_hex_pair(high: char, low: char)
    requires
        digit_value(high, 16) is Some,
        digit_value(low, 16) is Some,
    ensures
        0 <= hex_pair(high, low) <= 255,
        byte(seq![high, low], 16) == Some(hex_pair(high, low) as u8),
{
    let s = seq![high, low];
    assert(s.drop_last() =~= seq![high]);
    assert(seq![high].drop_last() =~= Seq::<char>::empty());
    reveal_with_fuel(digits_value, 4);
    assert(digits_value(s, 16) == hex_pair(high, low));
    assert(unsigned_digits(s) == s);
    assert(all_digits(s, 16));
}

proof fn lemma_hex_single(c: char)
    requires
        digit_value(c, 16) is Some,
    ensures
        hex_digit_doubled(c) == Some((digit_value(c, 16)->0 * 17) as u8),
{
    let s = seq![c];
    assert(s.drop_last() =~= Seq::<char>::empty());
    reveal_with_fuel(digits_value, 3);
    assert(digits_value(s, 16) == digit_value(c, 16)->0);
    assert(unsigned_digits(s) == s);
    assert(all_digits(s, 16));
}

/// `#` and six hexadecimal digits, in either case, stand for the colour of the three bytes that
/// they write.
pub proof fn six_hex_digits_are_read_back(d: Seq<char>)
    requires
        d.len() == 6,
        all_digits(d, 16),
    ensures
        color_of(seq!['#'] + d) == ColorSpec::Rgb(
            hex_pair(d[0], d[1]) as u8,
            hex_pair(d[2], d[3]) as u8,
            hex_pair(d[4], d[5]) as u8,
        ),
{
    let s = seq!['#'] + d;
    lemma_hash(d);
    assert(d.subrange(0, 2) =~= seq![d[0], d[1]]);
    assert(d.subrange(2, 4) =~= seq![d[2], d[3]]);
    assert(d.subrange(4, 6) =~= seq![d[4], d[5]]);
    lemma_hex_pair(d[0], d[1]);
    lemma_hex_pair(d[2], d[3]);
    lemma_hex_pair(d[4], d[5]);
}

/// `#` and three hexadecimal digits, in either case, stand for the colour of the three bytes that
/// they write when each is doubled.
pub proof fn three_hex_digits_are_read_back(d: Seq<char>)
    requires
        d.len() == 3,
        all_digits(d, 16),
    ensures
        color_of(seq!['#'] + d) == ColorSpec::Rgb(
            (digit_value(d[0], 16)->0 * 17) as u8,
            (digit_value(d[1], 16)->0 * 17) as u8,
            (digit_value(d[2], 16)->0 * 17) as u8,
        ),
{
    lemma_hash(d);
    lemma_hex_single(d[0]);
    lemma_hex_single(d[1]);
    lemma_hex_single(d[2]);
}

/// `#` with digits behind it is not trimmed, and the digits are what follows it.
proof fn lemma_hash(d: Seq<char>)
    requires
        d.len() > 0,
        all_digits(d, 16),
    ensures
        trimmed(seq!['#'] + d) == seq!['#'] + d,
        begins_with(seq!['#'] + d, "#"@),
        (seq!['#'] + d).skip(1) == d,
{
    let s = seq!['#'] + d;
    reveal_strlit("#");
    assert(s.last() == d[d.len() - 1]);
    lemma_trimmed_same(s);
    assert(s.take(1) =~= "#"@);
    assert(s.skip(1) =~= d);
}

/// A number with white space around it.
pub open spec fn spaced(before: Seq<char>, n: u8, behind: Seq<char>) -> Seq<char> {
    before + decimal(n as nat) + behind
}

proof fn lemma_spaced(before: Seq<char>, n: u8, behind: Seq<char>)
    requires
        all_white(before),
        all_white(behind),
    ensures
        byte(trimmed(spaced(before, n, behind)), 10) == Some(n),
        forall|i: int|
            0 <= i < spaced(before, n, behind).len() ==> #[trigger] spaced(before, n, behind)[i]
                != ',',
{
    let s = decimal(n as nat);
    lemma_decimal(n as nat);
    number_reads_decimal(n as nat, 255);
    lemma_trimmed_same(s);
    blanks_around_a_text_are_trimmed(before, s, behind);
    let all = spaced(before, n, behind);
    assert forall|i: int| 0 <= i < all.len() implies #[trigger] all[i] != ',' by {
        if i < before.len() {
            assert(is_white(before[i]));
        } else if i < before.len() + s.len() {
            assert(all[i] == s[i - before.len()]);
        } else {
            assert(is_white(behind[i - before.len() - s.len()]));
        }
    }
}

/// `rgb(..)` of three decimal numbers, with any white space around them, stands for the colour of
/// those numbers.
#[verifier::spinoff_prover]
#[verifier::rlimit(40)]
pub proof fn rgb_numbers_are_read_back(r: u8, g: u8, b: u8, blanks: Seq<Seq<char>>)
    requires
        blanks.len() == 6,
        forall|i: int| 0 <= i < 6 ==> all_white(#[trigger] blanks[i]),
    ensures
        color_of(
            "rgb("@ + spaced(blanks[0], r, blanks[1]) + seq![','] + spaced(blanks[2], g, blanks[3])
                + seq![','] + spaced(blanks[4], b, blanks[5]) + seq![')'],
        ) == ColorSpec::Rgb(r, g, b),
{
    let x = spaced(blanks[0], r, blanks[1]);
    let y = spaced(blanks[2], g, blanks[3]);
    let z = spaced(blanks[4], b, blanks[5]);
    let inner = x + seq![','] + y + seq![','] + z;
    let s = "rgb("@ + x + seq![','] + y + seq![','] + z + seq![')'];
    reveal_strlit("rgb(");
    reveal_strlit("#");
    lemma_spaced(blanks[0], r, blanks[1]);
    lemma_spaced(blanks[2], g, blanks[3]);
    lemma_spaced(blanks[4], b, blanks[5]);
    lemma_trimmed_same(s);
    assert(s.take(4) =~= "rgb("@);
    assert(s.subrange(4, s.len() - 1) =~= inner);
    if begins_with(s, "#"@) {
        assert(s.take(1)[0] == '#');
    }
    lemma_cut_at(inner, ',', x.len() as int);
    assert(inner.take(x.len() as int) =~= x);
    let after = y + seq![','] + z;
    assert(inner.skip(x.len() as int + 1) =~= after);
    lemma_cut_at(after, ',', y.len() as int);
    assert(after.take(y.len() as int) =~= y);
    assert(after.skip(y.len() as int + 1) =~= z);
    lemma_cut_at(z, ',', z.len() as int);
    assert(fields(z, ',') =~= seq![z]);
    assert(fields(after, ',') =~= seq![y, z]);
    assert(fields(inner, ',') =~= seq![x, y, z]);
}

/// The characters of a text with directives are characters of the text: a narrow text has narrow
/// ones.
pub proof fn narrow_writes_are_shown_narrow(s: Seq<char>)
    requires
        narrow_text(s),
    ensures
        narrow_glyphs(glyphs(styled_runs(s))),
{
    gathering_keeps_glyphs(styled_glyphs(s, plain_style()));
    lemma_narrow_styled(s, plain_style());
}

/// What is narrow when it is written is narrow in its cell.
pub proof fn narrow_writes_give_narrow_cells(raw: Seq<char>, style: InlineStyle)
    requires
        narrow_text(raw),
    ensures
        narrow_glyphs(glyphs(cell_of_raw(raw, style).styled_text)),
        narrow_glyphs(glyphs(cell_of_plain(raw, style).styled_text)),
{
    narrow_writes_are_shown_narrow(raw);
    styled_text_shows_the_plain_text(raw, style);
    runs_of_narrow_text_are_narrow(cell_of_plain(raw, style).styled_text);
    let g = glyphs(styled_runs(raw));
    text_is_that_of_glyphs(styled_runs(raw));
    assert forall|i: int| 0 <= i < plain(styled_runs(raw)).len() implies narrow(
        #[trigger] plain(styled_runs(raw))[i],
    ) by {
        assert(plain(styled_runs(raw))[i] == g[i].0);
    }
    runs_of_narrow_text_are_narrow(cell_of_raw(raw, style).styled_text);
}

proof fn lemma_narrow_styled(s: Seq<char>, style: InlineStyle)
    requires
        narrow_text(s),
    ensures
        narrow_glyphs(styled_glyphs(s, style)),
    decreases s.len(),
{
    if s.len() > 0 {
        if opens_directive(s) {
            let k = cut(s.skip(2), ']');
            reveal_strlit("#[");
            lemma_cut(s.skip(2), ']');
            lemma_narrow_styled(s.skip(k + 3), style_of(s.skip(2).take(k)));
        } else {
            lemma_narrow_styled(s.drop_first(), style);
        }
    }
}

/// A directive gives its style to what stands behind it, whatever the style before, and is not
/// shown itself.
pub proof fn directives_style_what_follows(content: Seq<char>, behind: Seq<char>, style: InlineStyle)
    requires
        !content.contains(']'),
    ensures
        styled_glyphs("#["@ + content + "]"@ + behind, style) == styled_glyphs(
            behind,
            style_of(content),
        ),
        holds_directive("#["@ + content + "]"@ + behind),
{
    let s = "#["@ + content + "]"@ + behind;
    let k = content.len() as int;
    reveal_strlit("#[");
    reveal_strlit("]");
    assert(s.take(2) =~= "#["@);
    let inner = s.skip(2);
    assert forall|i: int| 0 <= i < k implies inner[i] != ']' by {
        assert(inner[i] == content[i]);
        assert(content.contains(content[i]));
    }
    assert(inner[k] == ']');
    lemma_cut_at(inner, ']', k);
    assert(inner.take(k) =~= content);
    assert(s.skip(k + 3) =~= behind);
    assert(s.skip(0) =~= s);
    assert(opens_directive(s.skip(0)));
}

/// What stands before the first number sign keeps its style and is shown as it is.
pub proof fn text_before_directives_is_kept(before: Seq<char>, behind: Seq<char>, style: InlineStyle)
    requires
        !before.contains('#'),
    ensures
        styled_glyphs(before + behind, style) == paint(before, style) + styled_glyphs(
            behind,
            style,
        ),
    decreases before.len(),
{
    let all = before + behind;
    if before.len() == 0 {
        assert(all =~= behind);
        assert(paint(before, style) + styled_glyphs(behind, style) =~= styled_glyphs(
            behind,
            style,
        ));
    } else {
        reveal_strlit("#[");
        assert(before.contains(before[0]));
        if opens_directive(all) {
            assert(all.take(2)[0] == '#');
        }
        let later = before.drop_first();
        if later.contains('#') {
            let i = choose|i: int| 0 <= i < later.len() && later[i] == '#';
            assert(before[i + 1] == '#');
        }
        text_before_directives_is_kept(later, behind, style);
        assert(all.drop_first() =~= later + behind);
        assert(paint(before, style) =~= seq![(before[0], style)] + paint(later, style));
        assert(styled_glyphs(all, style) =~= paint(before, style) + styled_glyphs(behind, style));
    }
}

/// A style can be written with the brackets of a directive around it or without: it is the same.
pub proof fn brackets_around_a_style_change_nothing(content: Seq<char>)
    requires
        !begins_with(trimmed(content), "#["@),
    ensures
        style_of_literal("#["@ + content + "]"@) == style_of(content),
        style_of_literal(content) == style_of(trimmed(content)),
{
    let s = "#["@ + content + "]"@;
    reveal_strlit("#[");
    reveal_strlit("]");
    lemma_trimmed_same(s);
    assert(s.take(2) =~= "#["@);
    assert(s.subrange(2, s.len() - 1) =~= content);
}

/// A letter of the ASCII alphabet.
pub open spec fn letter(c: char) -> bool {
    'a' <= c <= 'z' || 'A' <= c <= 'Z'
}

/// Two texts of letters that differ at most in upper and lower case name the same colour.
pub proof fn names_of_colors_can_be_written_in_capitals(a: Seq<char>, b: Seq<char>)
    requires
        a.len() == b.len(),
        a.len() > 0,
        forall|i: int| 0 <= i < a.len() ==> letter(#[trigger] a[i]),
        forall|i: int| 0 <= i < b.len() ==> letter(#[trigger] b[i]),
        forall|i: int|
            0 <= i < a.len() ==> #[trigger] a[i] == b[i] || a[i] as u32 == b[i] as u32 + 32
                || b[i] as u32 == a[i] as u32 + 32,
    ensures
        color_of(a) == color_of(b),
{
    lemma_letters_are_names(a);
    lemma_letters_are_names(b);
    assert forall|i: int| 0 <= i < a.len() implies ascii_lower(#[trigger] a[i]) == ascii_lower(
        b[i],
    ) by {
        assert(letter(a[i]) && letter(b[i]));
    }
    assert(lowered(a) =~= lowered(b));
}

/// A text of letters can only be the name of a colour.
proof fn lemma_letters_are_names(a: Seq<char>)
    requires
        a.len() > 0,
        forall|i: int| 0 <= i < a.len() ==> letter(#[trigger] a[i]),
    ensures
        color_of(a) == color_named(lowered(a)),
{
    reveal_strlit("#");
    reveal_strlit("rgb(");
    assert(letter(a[0]) && letter(a[a.len() - 1]));
    lemma_trimmed_same(a);
    if begins_with(a, "#"@) {
        assert(a.take(1)[0] == '#');
    }
    if begins_with(a, "rgb("@) {
        assert(a.take(4)[3] == '(');
        assert(letter(a[3]));
    }
    assert(digit_value(a[0], 10) is None);
    assert(unsigned_digits(a) == a);
    if all_digits(a, 10) {
        assert(digit_value(a[0], 10) is Some);
    }
}

} // verus!
