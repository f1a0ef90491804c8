use super_tabs::cli::{parse_args, parse_pane_id, usage};
use super_tabs::tab_name::{decode_super_tab_id, encode_tab_name_with_id, SUPER_TAB_ID_KEY};
use super_tabs::text::{chars_of, parse_number, white};
use super_tabs::{
    decode_tab_name, encode_tab_name, CellState, ColorSpec, ColumnSpec, InlineStyle, ResizeMode,
    ResizeSpec, Schema, TextMap, TruncationSide, UpdatePayload, PIPE_NAME,
};

fn map(entries: &[(&str, &str)]) -> TextMap<String> {
    let mut map = TextMap::new();
    for (key, value) in entries {
        map.insert(key.to_string(), value.to_string());
    }
    map
}

fn column(name: &str) -> ColumnSpec {
    ColumnSpec {
        name: name.to_string(),
        resize_spec: ResizeSpec::Resize,
        default_style: InlineStyle::default(),
    }
}

fn cell(text: &str) -> Option<CellState> {
    Some(CellState::from_plain_text(text, &InlineStyle::default()))
}

#[test]
fn round_trips_quoted_values() {
    let columns = vec![
        ColumnSpec {
            name: "branch".to_string(),
            resize_spec: ResizeSpec::Resize,
            default_style: InlineStyle::default(),
        },
        ColumnSpec {
            name: "title".to_string(),
            resize_spec: ResizeSpec::Resize,
            default_style: InlineStyle::default(),
        },
    ];
    let cells = vec![
        Some(CellState::from_plain_text("main", &InlineStyle::default())),
        Some(CellState::from_plain_text(
            "api | worker \"blue\"",
            &InlineStyle::default(),
        )),
    ];

    let encoded = encode_tab_name(&columns, &cells);
    let decoded = decode_tab_name(&encoded).unwrap();

    assert_eq!(decoded.get("branch").unwrap(), "main");
    assert_eq!(decoded.get("title").unwrap(), "api | worker \"blue\"");
}

#[test]
fn missing_keys_decode_to_absent_entries() {
    let decoded = decode_tab_name("branch=\"main\"").unwrap();
    assert_eq!(decoded.get("branch").unwrap(), "main");
    assert!(!decoded.contains_key("status"));
}

#[test]
fn round_trips_super_tab_id() {
    let columns = vec![ColumnSpec {
        name: "branch".to_string(),
        resize_spec: ResizeSpec::Resize,
        default_style: InlineStyle::default(),
    }];
    let cells = vec![Some(CellState::from_plain_text(
        "main",
        &InlineStyle::default(),
    ))];

    let encoded = encode_tab_name_with_id(&columns, &cells, Some("st-12"));
    let decoded = decode_tab_name(&encoded).unwrap();

    assert_eq!(decode_super_tab_id(&encoded).as_deref(), Some("st-12"));
    assert_eq!(decoded.get(SUPER_TAB_ID_KEY).unwrap(), "st-12");
    assert_eq!(decoded.get("branch").unwrap(), "main");
}

#[test]
fn names_are_written_with_bars_and_escapes() {
    let columns = [column("a"), column("b"), column("c"), column("d")];
    let cells = [cell("x\\y"), None, cell(""), cell("\"")];
    assert_eq!(
        encode_tab_name_with_id(&columns, &cells, Some("st-1")),
        "__super_tabs_id=\"st-1\" | a=\"x\\\\y\" | d=\"\\\"\""
    );
    assert_eq!(encode_tab_name_with_id(&columns, &[], Some("")), "");
    assert_eq!(encode_tab_name(&columns, &[cell("1")]), "a=\"1\"");
}

#[test]
fn names_that_carry_nothing_readable_are_refused() {
    for name in [
        "Tab #1",
        "=\"x\"",
        "a=x",
        "a=\"x",
        "a=\"\\n\"",
        "a=\"x\" b=\"y\"",
        "a=\"x\" |",
        "a=\"x\\",
    ] {
        assert!(decode_tab_name(name).is_none(), "{name}");
        assert!(decode_super_tab_id(name).is_none(), "{name}");
    }
    assert!(decode_tab_name("  ").unwrap().is_empty());
    assert!(decode_super_tab_id("__super_tabs_id=\"\"").is_none());
    let spaced = decode_tab_name(" a = \"x\"|b=\"y\" ").unwrap();
    assert_eq!(spaced.get("a").unwrap(), "x");
    assert_eq!(spaced.get("b").unwrap(), "y");
    let repeated = decode_tab_name("a=\"x\" | a=\"y\"").unwrap();
    assert_eq!(repeated.get("a").unwrap(), "y");
    assert_eq!(repeated.len(), 1);
}

#[test]
fn parses_schema_from_flat_config() {
    let config = map(&[
        ("columns", "branch,status"),
        ("column_branch", "resize=resize;style=#[fg=blue]"),
        ("column_status", "resize=trunc:end:fixed:10;style=#[fg=yellow]"),
    ]);

    let schema = Schema::from_config(&config).unwrap();
    assert_eq!(schema.columns().len(), 2);
    assert_eq!(schema.columns()[0].name, "branch");
    assert_eq!(
        schema.columns()[1].resize_spec,
        ResizeSpec::Truncate {
            side: TruncationSide::End,
            mode: ResizeMode::Fixed(10),
        }
    );
}

#[test]
fn schema_keeps_the_order_of_its_columns() {
    let schema = Schema::from_config(&map(&[("columns", " b , ,a,"), ("column_a", " ; style=bold")])).unwrap();
    assert_eq!(schema.len(), 2);
    assert!(!schema.is_empty());
    assert_eq!(schema.index_of("b"), Some(0));
    assert_eq!(schema.index_of("a"), Some(1));
    assert_eq!(schema.index_of("c"), None);
    assert!(schema.columns()[1].default_style.bold);
    assert_eq!(schema.columns()[0].default_style.fg, ColorSpec::Default);
    assert_eq!(schema.clone(), schema);
}

#[test]
fn schemas_that_are_wrong_are_explained() {
    let message = |entries: &[(&str, &str)]| Schema::from_config(&map(entries)).unwrap_err();
    assert_eq!(message(&[]), "missing `columns` plugin config");
    assert_eq!(
        message(&[("columns", " , ")]),
        "`columns` must include at least one column"
    );
    assert_eq!(message(&[("columns", "a,b,a")]), "duplicate column `a`");
    assert_eq!(
        message(&[("columns", "a"), ("column_a", "bold")]),
        "invalid column field `bold`"
    );
    assert_eq!(
        message(&[("columns", "a"), ("column_a", "width=3")]),
        "unsupported column field `width`"
    );
    assert_eq!(
        message(&[("columns", "a"), ("column_a", "resize=x;width=3")]),
        "invalid resize spec `x`"
    );
}

fn encode(payload: &UpdatePayload) -> Result<String, String> {
    let mut updates = serde_json::Map::new();
    for index in 0..payload.updates.len() {
        updates.insert(
            payload.updates.key_at(index).clone(),
            serde_json::Value::from(payload.updates.value_at(index).as_str()),
        );
    }
    let mut object = serde_json::Map::new();
    object.insert("version".to_string(), serde_json::Value::from(payload.version));
    object.insert("pane_id".to_string(), serde_json::Value::from(payload.pane_id));
    object.insert("updates".to_string(), serde_json::Value::Object(updates));
    serde_json::to_string(&serde_json::Value::Object(object)).map_err(|error| error.to_string())
}

fn decode(text: &str) -> Result<UpdatePayload, String> {
    let value: serde_json::Value =
        serde_json::from_str(text).map_err(|error| error.to_string())?;
    let mut updates = TextMap::new();
    for (key, text) in value["updates"].as_object().ok_or("no updates")? {
        updates.insert(key.clone(), text.as_str().ok_or("no text")?.to_string());
    }
    Ok(UpdatePayload {
        version: value["version"].as_u64().ok_or("no version")? as u8,
        pane_id: value["pane_id"].as_u64().ok_or("no pane")? as u32,
        updates,
    })
}

#[test]
fn payload_round_trip_validates() {
    let payload = UpdatePayload {
        version: 1,
        pane_id: 12,
        updates: map(&[("branch", "main")]),
    };

    let json = payload.to_json(encode(&payload)).unwrap();
    assert!(UpdatePayload::parse(decode(&json)).unwrap() == payload);
}

#[test]
fn payloads_that_are_wrong_are_explained() {
    let payload = |version: u8, entries: &[(&str, &str)]| UpdatePayload {
        version,
        pane_id: 1,
        updates: map(entries),
    };
    assert_eq!(
        payload(2, &[("a", "b")]).validate().unwrap_err(),
        "unsupported payload version 2"
    );
    assert_eq!(
        payload(1, &[]).to_json(Ok(String::new())).unwrap_err(),
        "payload must include at least one column update"
    );
    assert_eq!(
        payload(1, &[("a", "b")]).to_json(Err("no".to_string())).unwrap_err(),
        "failed to encode payload: no"
    );
    assert_eq!(
        UpdatePayload::parse(Err("bad".to_string())).unwrap_err(),
        "invalid update payload: bad"
    );
    assert_eq!(
        UpdatePayload::parse(Ok(payload(0, &[]))).unwrap_err(),
        "unsupported payload version 0"
    );
    assert_eq!(PIPE_NAME, "super-tabs:update");
}

fn words(args: &[&str]) -> Vec<String> {
    args.iter().map(|arg| arg.to_string()).collect()
}

#[test]
fn parses_explicit_pane_updates() {
    let command = parse_args(
        words(&["set", "--pane", "12", "branch=main", "status=dirty"]),
        None,
    )
    .unwrap();

    assert_eq!(command.pane_id, 12);
    assert_eq!(command.updates.get("branch").unwrap(), "main");
    assert_eq!(command.updates.get("status").unwrap(), "dirty");
    let payload = command.into_payload();
    assert!(payload.validate().is_ok());
}

#[test]
fn pane_comes_from_the_environment_where_none_is_given() {
    let command = parse_args(words(&["set", " a =b=c"]), Some(" 7 ".to_string())).unwrap();
    assert_eq!(command.pane_id, 7);
    assert_eq!(command.updates.get("a").unwrap(), "b=c");
    assert_eq!(
        parse_args(words(&["set", "a=b"]), Some("x".to_string())).unwrap_err(),
        "invalid pane id `x`"
    );
    assert_eq!(
        parse_args(words(&["set", "a=b"]), None).unwrap_err(),
        "missing `ZELLIJ_PANE_ID`; pass `--pane <id>` when outside the target pane"
    );
}

#[test]
fn command_lines_that_are_wrong_are_explained() {
    let message = |args: &[&str]| parse_args(words(args), None).unwrap_err();
    assert_eq!(message(&[]), usage());
    assert_eq!(message(&["--help"]), usage());
    assert_eq!(message(&["set", "a=b", "-h"]), usage());
    assert_eq!(
        message(&["get"]),
        "unsupported command `get`\n\nusage: super-tabs set [--pane <id>] column=value [column=value ...]"
    );
    assert_eq!(
        message(&["set"]),
        "no column updates supplied\n\nusage: super-tabs set [--pane <id>] column=value [column=value ...]"
    );
    assert_eq!(message(&["set", "--pane"]), "`--pane` requires a numeric pane id");
    assert_eq!(message(&["set", "--pane", " x"]), "invalid pane id ` x`");
    assert_eq!(message(&["set", "ab"]), "expected COLUMN=value argument, got `ab`");
    assert_eq!(message(&["set", " =b"]), "invalid empty column name in ` =b`");
    assert_eq!(parse_pane_id("4294967295"), Ok(u32::MAX));
    assert!(parse_pane_id("4294967296").is_err());
}

#[test]
fn white_space_is_that_of_std() {
    for code in 0..=0x10ffffu32 {
        if let Some(c) = char::from_u32(code) {
            assert_eq!(white(c), c.is_whitespace(), "{code:x}");
        }
    }
}

#[test]
fn numbers_are_read_like_std_reads_them() {
    for text in ["0", "+7", "255", "256", "", "+", "-1", "++1", "1 ", "007", "x", "ff", "+fF"] {
        let chars = chars_of(text);
        assert_eq!(
            parse_number(&chars, 10, 255).map(|n| n as u8),
            text.parse::<u8>().ok(),
            "{text}"
        );
        assert_eq!(
            parse_number(&chars, 16, 255).map(|n| n as u8),
            u8::from_str_radix(text, 16).ok(),
            "{text}"
        );
    }
    assert_eq!(parse_number(&chars_of("18446744073709551615"), 10, u64::MAX), Some(u64::MAX));
    assert_eq!(parse_number(&chars_of("18446744073709551616"), 10, u64::MAX), None);
}

#[test]
fn maps_keep_one_value_for_a_key() {
    let mut m = map(&[("a", "1"), ("b", "2"), ("a", "3")]);
    assert_eq!(m.len(), 2);
    assert_eq!(m.get("a").unwrap(), "3");
    assert_eq!(m.remove("a").unwrap(), "3");
    assert!(m.remove("a").is_none());
    assert!(m == map(&[("b", "2")]));
    assert!(m != map(&[("b", "1")]));
}

#[test]
fn tab_names_hold_no_other_keys() {
    let columns = [column("a"), column("b"), column("c")];
    let cells = [cell("x=\"1\" | d=\"2\""), None, cell("")];
    let decoded =
        decode_tab_name(&encode_tab_name_with_id(&columns, &cells, Some("st-1-2"))).unwrap();
    assert!(decoded == map(&[(SUPER_TAB_ID_KEY, "st-1-2"), ("a", "x=\"1\" | d=\"2\"")]));
    let decoded = decode_tab_name(&encode_tab_name(&columns, &cells)).unwrap();
    assert!(decoded == map(&[("a", "x=\"1\" | d=\"2\"")]));
}
