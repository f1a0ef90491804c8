use super_tabs::share::share_of;
use super_tabs::{
    clip_right_edge, fit_cell_to_width, solve_column_widths, ColumnSpec, InlineStyle, ResizeMode,
    ResizeSpec, StyledText, TruncationSide, WidthIndex,
};

fn column(name: &str, resize_spec: ResizeSpec) -> ColumnSpec {
    ColumnSpec {
        name: name.to_string(),
        resize_spec,
        default_style: InlineStyle::default(),
    }
}

fn truncate(mode: ResizeMode) -> ResizeSpec {
    ResizeSpec::Truncate {
        side: TruncationSide::End,
        mode,
    }
}

#[test]
fn parses_resize_specs() {
    assert_eq!(ResizeSpec::parse("resize").unwrap(), ResizeSpec::Resize);
    assert_eq!(
        ResizeSpec::parse("trunc:end:hard:10").unwrap(),
        ResizeSpec::Truncate {
            side: TruncationSide::End,
            mode: ResizeMode::Hard(10),
        }
    );
    assert_eq!(
        ResizeSpec::parse("trunc:end:fixed:10").unwrap(),
        ResizeSpec::Truncate {
            side: TruncationSide::End,
            mode: ResizeMode::Fixed(10),
        }
    );
}

#[test]
fn hard_width_caps_natural_width() {
    let columns = vec![column(
        "status",
        ResizeSpec::Truncate {
            side: TruncationSide::End,
            mode: ResizeMode::Hard(4),
        },
    )];
    assert_eq!(solve_column_widths(&columns, &[10], 20, 1), vec![4]);
}

#[test]
fn fixed_width_reserves_exact_space() {
    let columns = vec![column(
        "status",
        ResizeSpec::Truncate {
            side: TruncationSide::End,
            mode: ResizeMode::Fixed(10),
        },
    )];
    assert_eq!(solve_column_widths(&columns, &[3], 20, 1), vec![10]);
}

#[test]
fn flow_widths_split_by_weight() {
    let columns = vec![
        column(
            "left",
            ResizeSpec::Truncate {
                side: TruncationSide::End,
                mode: ResizeMode::Flow(1),
            },
        ),
        column(
            "right",
            ResizeSpec::Truncate {
                side: TruncationSide::End,
                mode: ResizeMode::Flow(3),
            },
        ),
    ];

    assert_eq!(solve_column_widths(&columns, &[20, 20], 17, 1), vec![4, 12]);
}

#[test]
fn right_edge_clip_uses_hard_clip() {
    let clipped = clip_right_edge(&StyledText::plain("abcdef"), 4);
    assert_eq!(clipped.plain_text(), "abcd");
}

#[test]
fn resize_specs_that_are_wrong_are_explained() {
    let message = |text: &str| ResizeSpec::parse(text).unwrap_err();
    assert_eq!(message("grow"), "invalid resize spec `grow`");
    assert_eq!(message(" "), "invalid resize spec ``");
    assert_eq!(
        message("trunc:end:hard:1:2"),
        "invalid resize spec `trunc:end:hard:1:2`"
    );
    assert_eq!(message("trunc"), "invalid truncation side ``");
    assert_eq!(message("trunc:mid:hard:1"), "invalid truncation side `mid`");
    assert_eq!(message("trunc:end:hard:x"), "invalid resize amount `x`");
    assert_eq!(message("trunc:end:hard"), "invalid resize amount ``");
    assert_eq!(message("trunc:end:soft:1"), "invalid resize mode `soft`");
    assert_eq!(
        ResizeSpec::parse(" trunc:start:flow:0 ").unwrap(),
        ResizeSpec::Truncate {
            side: TruncationSide::Start,
            mode: ResizeMode::Flow(1),
        }
    );
}

#[test]
fn only_flowing_columns_have_a_weight() {
    assert_eq!(ResizeSpec::Resize.flow_weight(), None);
    assert_eq!(truncate(ResizeMode::Hard(3)).flow_weight(), None);
    assert_eq!(truncate(ResizeMode::Fixed(3)).flow_weight(), None);
    assert_eq!(truncate(ResizeMode::Flow(3)).flow_weight(), Some(3));
    assert_eq!(truncate(ResizeMode::Flow(0)).flow_weight(), Some(1));
}

#[test]
fn width_index_gives_the_greatest_width() {
    let mut index = WidthIndex::default();
    assert_eq!(index.max(), 0);
    index.replace(None, 3);
    index.replace(None, 7);
    index.replace(None, 7);
    assert_eq!(index.max(), 7);
    index.replace(Some(7), 2);
    assert_eq!(index.max(), 7);
    index.remove(7);
    assert_eq!(index.max(), 3);
    index.remove(9);
    assert_eq!(index.max(), 3);
    index.replace(Some(9), 1);
    assert_eq!(index.max(), 3);
    let copy = index.clone();
    index.remove(3);
    index.remove(2);
    index.remove(1);
    assert_eq!(index, WidthIndex::default());
    assert_eq!(copy.max(), 3);
}

#[test]
fn cells_are_cut_on_their_side() {
    let text = StyledText::plain("abcdef");
    let start = ResizeSpec::Truncate {
        side: TruncationSide::Start,
        mode: ResizeMode::Hard(4),
    };
    assert_eq!(fit_cell_to_width(&text, ResizeSpec::Resize, 4).plain_text(), "abcd");
    assert_eq!(
        fit_cell_to_width(&text, truncate(ResizeMode::Hard(4)), 4).plain_text(),
        "abc…"
    );
    assert_eq!(fit_cell_to_width(&text, start, 4).plain_text(), "…def");
    assert_eq!(fit_cell_to_width(&text, start, 6), text);
    assert_eq!(fit_cell_to_width(&text, start, 0), StyledText::new());
}

#[test]
fn columns_with_room_are_as_wide_as_their_content() {
    let columns = vec![
        column("a", ResizeSpec::Resize),
        column("b", truncate(ResizeMode::Flow(1))),
        column("c", truncate(ResizeMode::Hard(5))),
    ];
    assert_eq!(solve_column_widths(&columns, &[4, 6, 3], 15, 1), vec![4, 6, 3]);
    assert_eq!(solve_column_widths(&columns, &[4, 6, 3], 14, 1), vec![4, 5, 3]);
    assert_eq!(solve_column_widths(&columns, &[4, 6, 9], 8, 1), vec![4, 0, 5]);
    assert_eq!(solve_column_widths(&[], &[], 8, 1), Vec::<usize>::new());
}

#[test]
fn leftover_width_goes_to_the_greatest_rest_first() {
    let flow = |weight: usize| column("x", truncate(ResizeMode::Flow(weight)));
    let columns = vec![flow(1), flow(4), flow(1)];
    assert_eq!(solve_column_widths(&columns, &[10, 10, 10], 4, 0), vec![1, 2, 1]);
    let columns = vec![flow(1), flow(1), flow(1)];
    assert_eq!(solve_column_widths(&columns, &[1, 10, 10], 8, 0), vec![1, 4, 3]);
}

#[test]
fn widths_of_any_size_are_solved() {
    let columns = vec![
        column("a", truncate(ResizeMode::Fixed(usize::MAX))),
        column("b", truncate(ResizeMode::Fixed(usize::MAX))),
        column("c", truncate(ResizeMode::Flow(usize::MAX))),
    ];
    assert_eq!(
        solve_column_widths(&columns, &[1, 1, 1], usize::MAX, usize::MAX),
        vec![usize::MAX, usize::MAX, 0]
    );
}

/// The widths that the same rules give with the machine's floating point.
fn widths_by_float(weights: &[usize], naturals: &[usize], room: usize) -> Vec<usize> {
    if naturals.iter().sum::<usize>() <= room {
        return naturals.to_vec();
    }
    let total: usize = weights.iter().sum();
    let mut widths = vec![];
    let mut rests = vec![];
    for (index, (weight, natural)) in weights.iter().zip(naturals).enumerate() {
        let exact = (room as f64 * *weight as f64) / total as f64;
        widths.push((exact.floor() as usize).min(*natural));
        rests.push((exact - exact.floor(), index));
    }
    rests.sort_by(|a, b| b.0.partial_cmp(&a.0).unwrap().then_with(|| a.1.cmp(&b.1)));
    let mut left = room.saturating_sub(widths.iter().sum());
    while left > 0 {
        let before = left;
        for (_, index) in &rests {
            if left > 0 && widths[*index] < naturals[*index] {
                widths[*index] += 1;
                left -= 1;
            }
        }
        if left == before {
            break;
        }
    }
    widths
}

#[test]
fn shares_agree_with_floating_point() {
    let mut seed: u64 = 0x9e37_79b9_7f4a_7c15;
    let mut next = move || {
        seed ^= seed << 13;
        seed ^= seed >> 7;
        seed ^= seed << 17;
        seed
    };
    for round in 0..20_000 {
        let bits = (round % 64) as u32;
        let amount = next() >> bits;
        let weight = (next() >> (next() % 64)).max(1);
        let total = weight.saturating_add(next() >> (next() % 64));
        let exact = (amount as f64 * weight as f64) / total as f64;
        let share = share_of(amount, weight, total as u128);
        assert_eq!(
            share.floor_up_to(usize::MAX),
            exact.floor() as usize,
            "{amount} {weight} {total}"
        );
        let part = share.fraction();
        let value = part.numerator as f64 / 2f64.powi(part.shift as i32);
        assert_eq!(value, exact - exact.floor(), "{amount} {weight} {total}");
    }
}

#[test]
fn flow_widths_agree_with_floating_point() {
    let flow = |weight: usize| column("x", truncate(ResizeMode::Flow(weight)));
    for a in 1..6usize {
        for b in 1..6usize {
            for c in 1..6usize {
                for room in 0..24usize {
                    for natural in [3usize, 9, 20] {
                        let weights = [a, b, c];
                        let naturals = [natural, 7, 12];
                        let columns = weights.map(flow);
                        assert_eq!(
                            solve_column_widths(&columns, &naturals, room, 0),
                            widths_by_float(&weights, &naturals, room),
                        );
                    }
                }
            }
        }
    }
}

#[test]
fn heavy_columns_fill_the_room() {
    let columns: Vec<ColumnSpec> = (0..7)
        .map(|_| column("x", truncate(ResizeMode::Flow(1 << 50))))
        .collect();
    for room in 1..8usize {
        let widths = solve_column_widths(&columns, &[3; 7], room, 0);
        assert_eq!(widths.iter().sum::<usize>(), room);
    }
    let columns: Vec<ColumnSpec> = (0..9)
        .map(|_| column("x", truncate(ResizeMode::Flow((1 << 53) - 1))))
        .collect();
    assert_eq!(
        solve_column_widths(&columns, &[3; 9], 1, 0),
        [1, 0, 0, 0, 0, 0, 0, 0, 0]
    );
    let wide = [column("x", truncate(ResizeMode::Flow(1)))];
    let room = (1usize << 53) + 3;
    assert_eq!(
        solve_column_widths(&wide, &[usize::MAX], room, 0),
        [(1usize << 53) + 4]
    );
}

#[test]
fn narrow_cells_take_no_more_than_their_column() {
    for width in 0..9usize {
        for rule in [
            ResizeSpec::Resize,
            truncate(ResizeMode::Fixed(width)),
            ResizeSpec::Truncate {
                side: TruncationSide::Start,
                mode: ResizeMode::Hard(width),
            },
        ] {
            let cell = fit_cell_to_width(&StyledText::plain("abcdef"), rule, width);
            assert_eq!(cell.display_width(), width.min(6));
        }
    }
}
