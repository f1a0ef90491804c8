use super_tabs::{
    has_style_directive, parse_color_spec, parse_style_directive, parse_style_literal,
    parse_styled_string, CellState, ColorSpec, InlineStyle, StyledText,
};
use unicode_width::{UnicodeWidthChar, UnicodeWidthStr};

fn style() -> InlineStyle {
    InlineStyle::default()
}

#[test]
fn strips_inline_styles_to_plain_text() {
    let styled = parse_styled_string("#[fg=blue]main #[fg=red,bold]dirty");
    assert_eq!(styled.plain_text(), "main dirty");
}

#[test]
fn plain_write_uses_default_style() {
    let style = parse_style_literal("#[fg=yellow]");
    let cell = CellState::from_raw("main", &style);
    assert!(!cell.had_inline_style);
    assert_eq!(cell.styled_text.segments.len(), 1);
    assert_eq!(cell.styled_text.segments[0].style, style);
}

#[test]
fn ansi_output_resets_before_default_text() {
    let styled = parse_styled_string("#[fg=yellow]IDLE #[default]rest");
    assert_eq!(styled.to_ansi(), "\x1b[38;5;226mIDLE \x1b[0mrest");
}

#[test]
fn truncate_end_keeps_prefix() {
    let styled = StyledText::plain("abcdefgh");
    assert_eq!(styled.truncate_end(5).plain_text(), "abcd…");
}

#[test]
fn truncate_start_keeps_suffix() {
    let styled = StyledText::plain("abcdefgh");
    assert_eq!(styled.truncate_start(5).plain_text(), "…efgh");
}

#[test]
fn truncation_uses_single_marker_for_tiny_widths() {
    let styled = StyledText::plain("abcdefgh");
    assert_eq!(styled.truncate_end(1).plain_text(), "…");
    assert_eq!(styled.truncate_start(1).plain_text(), "…");
}

#[test]
fn truncation_to_nothing_is_empty() {
    let styled = StyledText::plain("abcdefgh");
    assert_eq!(styled.truncate_end(0), StyledText::new());
    assert_eq!(styled.truncate_start(0), StyledText::new());
}

#[test]
fn text_that_fits_is_not_truncated() {
    let styled = parse_styled_string("#[bold]ab#[dim]cd");
    assert_eq!(styled.truncate_end(4), styled);
    assert_eq!(styled.truncate_start(4), styled);
}

#[test]
fn wide_characters_take_two_columns() {
    let styled = StyledText::plain("日本語");
    assert_eq!(styled.display_width(), 6);
    assert_eq!(styled.clip_end(5).plain_text(), "日本");
    assert_eq!(styled.clip_start(5).plain_text(), "本語");
    assert_eq!(styled.truncate_end(4).plain_text(), "日…");
    assert_eq!(styled.truncate_start(4).plain_text(), "…語");
    assert_eq!(styled.checked_display_width(), Some(6));
}

#[test]
fn clipping_stops_at_the_last_column() {
    let styled = StyledText::plain("ab\u{301}c");
    assert_eq!(styled.clip_end(2).plain_text(), "ab");
    assert_eq!(styled.clip_end(3).plain_text(), "ab\u{301}c");
    assert_eq!(styled.clip_start(1).plain_text(), "c");
    let mark = StyledText::plain("\u{301}a");
    assert_eq!(mark.clip_end(0).plain_text(), "\u{301}");
    assert_eq!(StyledText::plain("a").clip_end(0).plain_text(), "");
}

#[test]
fn clipping_keeps_styles() {
    let styled = parse_styled_string("#[bold]ab#[dim]cd");
    let clipped = styled.clip_end(3);
    assert_eq!(clipped.segments.len(), 2);
    assert_eq!(clipped.segments[0].text, "ab");
    assert!(clipped.segments[0].style.bold);
    assert_eq!(clipped.segments[1].text, "c");
    assert!(clipped.segments[1].style.dim);
    let clipped = styled.clip_start(3);
    assert_eq!(clipped.segments[0].text, "b");
    assert_eq!(clipped.segments[1].text, "cd");
}

#[test]
fn equal_styles_join_into_one_segment() {
    let mut styled = StyledText::new();
    styled.push("a", style());
    styled.push("", parse_style_directive("bold"));
    styled.push_plain("b");
    assert_eq!(styled.segments.len(), 1);
    assert_eq!(styled.plain_text(), "ab");
    let mut more = StyledText::new();
    more.push("c", style());
    more.push("d", parse_style_directive("bold"));
    styled.extend(more);
    assert_eq!(styled.segments.len(), 2);
    assert_eq!(styled.segments[0].text, "abc");
    assert_eq!(styled.segments[1].display_width(), 1);
}

#[test]
fn plain_text_has_no_escape_sequences() {
    assert_eq!(StyledText::plain("a b").to_ansi(), "a b");
    assert_eq!(StyledText::new().to_ansi(), "");
}

#[test]
fn escape_sequences_follow_the_style() {
    let style = parse_style_literal("fg=1,bg=#010203,bold,dim,fill");
    assert_eq!(style.to_ansi(), "\x1b[1m\x1b[2m\x1b[38;5;1m\x1b[48;2;1;2;3m");
    assert!(style.fill && style.has_any_style());
    assert!(!InlineStyle::default().has_any_style());
    assert_eq!(ColorSpec::Default.to_ansi_fg(), "");
    assert_eq!(ColorSpec::Default.to_ansi_bg(), "");
    assert_eq!(ColorSpec::EightBit(200).to_ansi_bg(), "\x1b[48;5;200m");
    assert_eq!(ColorSpec::Rgb(255, 0, 10).to_ansi_fg(), "\x1b[38;2;255;0;10m");
    assert!(ColorSpec::default().is_default());
    assert!(!ColorSpec::EightBit(0).is_default());
    let styled = parse_styled_string("#[bold]a#[dim]b");
    assert_eq!(styled.to_ansi(), "\x1b[1ma\x1b[0m\x1b[2mb\x1b[0m");
}

#[test]
fn colors_are_read() {
    assert_eq!(parse_color_spec("#fff"), ColorSpec::Rgb(255, 255, 255));
    assert_eq!(parse_color_spec("#0aF"), ColorSpec::Rgb(0, 170, 255));
    assert_eq!(parse_color_spec("#ebdbb2"), ColorSpec::Rgb(0xeb, 0xdb, 0xb2));
    assert_eq!(parse_color_spec("#+f0102"), ColorSpec::Rgb(15, 1, 2));
    assert_eq!(parse_color_spec("#12345"), ColorSpec::Default);
    assert_eq!(parse_color_spec("#+ff"), ColorSpec::Default);
    assert_eq!(parse_color_spec("#xyz"), ColorSpec::Default);
    assert_eq!(parse_color_spec("#é1"), ColorSpec::Default);
    assert_eq!(parse_color_spec("rgb(1,2,3)"), ColorSpec::Rgb(1, 2, 3));
    assert_eq!(parse_color_spec("rgb( 1 , +2 ,3 )"), ColorSpec::Rgb(1, 2, 3));
    assert_eq!(parse_color_spec("rgb(1,2)"), ColorSpec::Default);
    assert_eq!(parse_color_spec("rgb(1,2,256)"), ColorSpec::Default);
    assert_eq!(parse_color_spec(" 7 "), ColorSpec::EightBit(7));
    assert_eq!(parse_color_spec("255"), ColorSpec::EightBit(255));
    assert_eq!(parse_color_spec("256"), ColorSpec::Default);
    assert_eq!(parse_color_spec(""), ColorSpec::Default);
}

#[test]
fn color_names_are_read_in_any_case() {
    let table: [(&str, u8); 30] = [
        ("accent", 39),
        ("primary", 39),
        ("secondary", 75),
        ("tertiary", 141),
        ("muted", 245),
        ("quaternary", 245),
        ("dim", 240),
        ("dimmed", 240),
        ("black", 0),
        ("red", 196),
        ("error", 196),
        ("warning", 196),
        ("green", 82),
        ("success", 82),
        ("ok", 82),
        ("yellow", 226),
        ("blue", 33),
        ("magenta", 201),
        ("cyan", 51),
        ("white", 15),
        ("orange", 208),
        ("gray", 244),
        ("grey", 244),
        ("pink", 213),
        ("purple", 135),
        ("Red", 196),
        ("OK", 82),
        ("o\u{212a}", 82),
        ("PINK", 213),
        ("Purple", 135),
    ];
    for (name, number) in table {
        assert_eq!(parse_color_spec(name), ColorSpec::EightBit(number), "{name}");
    }
    for name in ["none", "default", "reset", "NONE", "unknown", "rëd"] {
        assert_eq!(parse_color_spec(name), ColorSpec::Default, "{name}");
    }
}

#[test]
fn lower_case_agrees_with_std_on_ascii() {
    for code in 0..=0x10ffffu32 {
        let Some(c) = char::from_u32(code) else {
            continue;
        };
        let ours = super_tabs::markup::lower_case(&[c]);
        let std: Vec<char> = c.to_lowercase().collect();
        if std.iter().all(|c| c.is_ascii()) {
            assert_eq!(ours, std);
        } else {
            assert!(!ours[0].is_ascii());
        }
    }
}

#[test]
fn every_color_number_is_read_back() {
    for n in 0..=255u8 {
        assert_eq!(parse_color_spec(&n.to_string()), ColorSpec::EightBit(n));
    }
}

#[test]
fn directives_are_read() {
    assert_eq!(parse_style_directive(""), style());
    assert_eq!(parse_style_directive(" , ,"), style());
    assert!(parse_style_directive(" bold ").bold);
    assert!(!parse_style_directive("bold,default").bold);
    assert!(!parse_style_directive("bold,none").bold);
    assert!(!parse_style_directive("bold,reset").bold);
    assert!(parse_style_directive("bold,wobble").bold);
    assert_eq!(parse_style_directive("fg=red,fg=blue").fg, ColorSpec::EightBit(33));
    assert_eq!(parse_style_directive("bg= green ").bg, ColorSpec::EightBit(82));
    assert_eq!(parse_style_literal("  #[dim]  "), parse_style_directive("dim"));
    assert_eq!(parse_style_literal("dim"), parse_style_directive("dim"));
    assert_eq!(parse_style_literal("#["), style());
}

#[test]
fn directives_are_found() {
    assert!(has_style_directive("#[]"));
    assert!(has_style_directive("a#[b #[bold]"));
    assert!(!has_style_directive("]#["));
    assert!(!has_style_directive("# [bold]"));
    assert!(!has_style_directive(""));
}

#[test]
fn unfinished_directives_are_text() {
    let styled = parse_styled_string("a#[bold");
    assert_eq!(styled, StyledText::plain("a#[bold"));
    assert_eq!(parse_styled_string("#[bold]").segments.len(), 0);
}

#[test]
fn cells_with_directives_keep_their_styles() {
    let default = parse_style_literal("fg=yellow");
    let cell = CellState::from_raw("#[bold]x#[dim]y", &default);
    assert!(cell.had_inline_style);
    assert_eq!(cell.plain_text, "xy");
    assert_eq!(cell.raw_input, "#[bold]x#[dim]y");
    assert_eq!(cell.styled_text.plain_text(), cell.plain_text);
    assert_eq!(cell.display_width(), 2);
    assert_eq!(cell.styled_text.segments.len(), 2);
    let plain = CellState::from_plain_text("#[bold]x", &default);
    assert_eq!(plain.plain_text, "#[bold]x");
    assert!(!plain.had_inline_style);
    assert_eq!(
        CellState::from_raw("main", &default),
        CellState::from_plain_text("main", &default)
    );
}

#[test]
fn lone_characters_measure_like_texts() {
    let mut text = String::new();
    for code in 0..=0x10ffffu32 {
        let Some(c) = char::from_u32(code) else {
            continue;
        };
        text.clear();
        text.push(c);
        match UnicodeWidthChar::width(c) {
            Some(w) => assert_eq!(UnicodeWidthStr::width(text.as_str()), w, "{code:x}"),
            None => assert!(c.is_control()),
        }
        if (' '..='~').contains(&c) || c == '…' {
            assert_eq!(UnicodeWidthChar::width(c), Some(1));
        }
    }
}

#[test]
fn narrow_text_takes_a_column_a_character() {
    let narrow: Vec<char> = (' '..='~').chain(['\u{2026}']).collect();
    for a in &narrow {
        for b in &narrow {
            let text: String = [*a, '\u{2026}', *b].iter().collect();
            assert_eq!(text.width(), 3, "{text:?}");
            let styled = StyledText::plain(&text);
            assert_eq!(styled.display_width(), 3);
            assert_eq!(styled.checked_display_width(), Some(3));
            assert_eq!(styled.segments[0].display_width(), 3);
            assert_eq!(CellState::from_plain_text(&text, &style()).display_width(), 3);
        }
    }
    let cut = StyledText::plain("abcdefgh").truncate_end(5);
    assert_eq!(cut.segments.len(), 1);
    assert_eq!(cut.display_width(), 5);
}

fn without_escapes(text: &str) -> String {
    let mut rest = text;
    let mut out = String::new();
    while let Some(start) = rest.find('\x1b') {
        out.push_str(&rest[..start]);
        let end = rest[start..].find('m').unwrap();
        rest = &rest[start + end + 1..];
    }
    out.push_str(rest);
    out
}

#[test]
fn shown_text_without_escapes_is_the_plain_text() {
    for input in [
        "",
        "plain",
        "#[fg=red,bold]mm#[bg=#102030,dim]m#[none] m",
        "#[fill]x#[fg=7]y",
        "#[bold]a#[fg=rgb(1,2,3)]b",
    ] {
        let styled = parse_styled_string(input);
        assert_eq!(without_escapes(&styled.to_ansi()), styled.plain_text());
    }
    assert!(parse_styled_string("a#[fill]x").to_ansi().ends_with("\x1b[0m"));
    assert!(!parse_styled_string("#[bold]x#[none]a").to_ansi().ends_with("\x1b[0m"));
}

#[test]
fn colors_of_every_form_are_read_back() {
    for n in 0..=255u8 {
        let m = 255 - n;
        let color = ColorSpec::Rgb(n, m, 7);
        assert_eq!(parse_color_spec(&format!("#{n:02x}{m:02X}07")), color);
        assert_eq!(parse_color_spec(&format!("rgb({n}, {m},7)")), color);
        assert_eq!(parse_color_spec(&format!(" rgb(\t{n} ,{m}  , 7 ) ")), color);
    }
    for n in 0..16u8 {
        assert_eq!(
            parse_color_spec(&format!("#{n:x}{n:X}0")),
            ColorSpec::Rgb(n * 17, n * 17, 0)
        );
    }
    assert_eq!(parse_color_spec(" \u{3000}red\n"), parse_color_spec("red"));
}
