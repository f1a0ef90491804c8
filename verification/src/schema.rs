//! The columns of the tab list.
use vstd::prelude::*;
use vstd::slice::slice_subrange;

use crate::layout::{resize_rule, ResizeSpec};
use crate::map::{Record, TextMap};
use crate::markup::{parse_style_literal, style_of_literal};
use crate::style::{plain_style, InlineStyle};
use crate::text::{
    chars_of, cut, fields, find_char, joined, lemma_cut_at, lemma_trimmed_behind,
    lemma_trimmed_same, outcome, pieces, put_between, same_text, spells, split, string_of,
    texts_are_cut_where_they_were_joined, trim, trimmed, trimmed_end,
    trimming_twice_is_trimming_once,
};

verus! {

/// A column: its name, how its width is found, and how its cells look.
#[derive(Debug, Clone, PartialEq, Eq)]
pub struct ColumnSpec {
    pub name: String,
    pub resize_spec: ResizeSpec,
    pub default_style: InlineStyle,
}

/// What a [`ColumnSpec`] stands for.
#[verifier::ext_equal]
pub struct ColumnView {
    pub name: Seq<char>,
    pub rule: ResizeSpec,
    pub style: InlineStyle,
}

impl View for ColumnSpec {
    type V = ColumnView;

    open spec fn view(&self) -> ColumnView {
        ColumnView { name: self.name@, rule: self.resize_spec, style: self.default_style }
    }
}

/// What columns stand for.
pub open spec fn column_views(columns: Seq<ColumnSpec>) -> Seq<ColumnView> {
    columns.map_values(|c: ColumnSpec| c@)
}

/// The rules of columns.
pub open spec fn rules(columns: Seq<ColumnView>) -> Seq<ResizeSpec> {
    columns.map_values(|c: ColumnView| c.rule)
}

/// The names of columns.
pub open spec fn names(columns: Seq<ColumnView>) -> Seq<Seq<char>> {
    columns.map_values(|c: ColumnView| c.name)
}

impl Record for ColumnSpec {
    fn duplicate(&self) -> (r: Self) {
        ColumnSpec {
            name: self.name.clone(),
            resize_spec: self.resize_spec,
            default_style: self.default_style,
        }
    }

    fn agrees(&self, other: &Self) -> (r: bool) {
        self.name.agrees(&other.name) && self.resize_spec == other.resize_spec
            && self.default_style == other.default_style
    }
}

// ---------------------------------------------------------------------------------------
// Configuration
// ---------------------------------------------------------------------------------------

/// The texts that are left of the given ones without white space around them and without
/// empty ones.
pub open spec fn words(parts: Seq<Seq<char>>) -> Seq<Seq<char>>
    decreases parts.len(),
{
    if parts.len() == 0 {
        Seq::empty()
    } else {
        let before = words(parts.drop_last());
        if trimmed(parts.last()).len() == 0 {
            before
        } else {
            before.push(trimmed(parts.last()))
        }
    }
}

/// The rule and style of a column after one more field of its definition.
pub open spec fn definition_with(
    rule: ResizeSpec,
    style: InlineStyle,
    part: Seq<char>,
) -> Result<(ResizeSpec, InlineStyle), Seq<char>> {
    let field = trimmed(part);
    let k = cut(field, '=');
    let key = trimmed(field.take(k));
    let value = trimmed(field.skip(k + 1));
    if field.len() == 0 {
        Ok((rule, style))
    } else if k >= field.len() {
        Err("invalid column field `"@ + field + "`"@)
    } else if key == "resize"@ {
        match resize_rule(value) {
            Ok(rule) => Ok((rule, style)),
            Err(message) => Err(message),
        }
    } else if key == "style"@ {
        Ok((rule, style_of_literal(value)))
    } else {
        Err("unsupported column field `"@ + key + "`"@)
    }
}

/// The rule and style of a column that the fields of its definition give.
pub open spec fn definition_of_parts(parts: Seq<Seq<char>>) -> Result<
    (ResizeSpec, InlineStyle),
    Seq<char>,
>
    decreases parts.len(),
{
    if parts.len() == 0 {
        Ok((ResizeSpec::Resize, plain_style()))
    } else {
        match definition_of_parts(parts.drop_last()) {
            Ok((rule, style)) => definition_with(rule, style, parts.last()),
            Err(message) => Err(message),
        }
    }
}

/// The rule and style that a definition gives: fields with semicolons between them.
pub open spec fn definition_of(text: Seq<char>) -> Result<(ResizeSpec, InlineStyle), Seq<char>> {
    definition_of_parts(fields(text, ';'))
}

/// The text under a key; nothing where the key is absent.
pub open spec fn setting(config: Map<Seq<char>, Seq<char>>, key: Seq<char>) -> Seq<char> {
    if config.contains_key(key) {
        config[key]
    } else {
        Seq::empty()
    }
}

/// The columns of the given names, each as defined under `column_` and its name.
pub open spec fn columns_named(
    config: Map<Seq<char>, Seq<char>>,
    wanted: Seq<Seq<char>>,
) -> Result<Seq<ColumnView>, Seq<char>>
    decreases wanted.len(),
{
    if wanted.len() == 0 {
        Ok(Seq::empty())
    } else {
        match columns_named(config, wanted.drop_last()) {
            Err(message) => Err(message),
            Ok(before) => {
                let name = wanted.last();
                if names(before).contains(name) {
                    Err("duplicate column `"@ + name + "`"@)
                } else {
                    match definition_of(setting(config, "column_"@ + name)) {
                        Err(message) => Err(message),
                        Ok((rule, style)) => Ok(before.push(ColumnView { name, rule, style })),
                    }
                }
            },
        }
    }
}

/// The columns that a configuration asks for, or what is wrong with it.
pub open spec fn columns_of_config(config: Map<Seq<char>, Seq<char>>) -> Result<
    Seq<ColumnView>,
    Seq<char>,
> {
    let wanted = words(fields(config["columns"@], ','));
    if !config.contains_key("columns"@) {
        Err("missing `columns` plugin config"@)
    } else if wanted.len() == 0 {
        Err("`columns` must include at least one column"@)
    } else {
        columns_named(config, wanted)
    }
}

fn apply_field(rule: ResizeSpec, style: InlineStyle, part: &[char]) -> (r: Result<
    (ResizeSpec, InlineStyle),
    String,
>)
    ensures
        outcome(r) == definition_with(rule, style, part@),
{
    let field = trim(part);
    if field.len() == 0 {
        return Ok((rule, style));
    }
    let k: usize = find_char(field, '=');
    if k >= field.len() {
        return Err(joined("invalid column field `", field, "`"));
    }
    let key = trim(slice_subrange(field, 0, k));
    assert(field@.subrange(0, k as int) =~= field@.take(k as int));
    let value = trim(slice_subrange(field, k + 1, field.len()));
    assert(field@.subrange(k + 1, field@.len() as int) =~= field@.skip(k + 1));
    if spells(key, "resize") {
        match ResizeSpec::parse_chars(value) {
            Ok(rule) => Ok((rule, style)),
            Err(message) => Err(message),
        }
    } else if spells(key, "style") {
        Ok((rule, parse_style_literal(string_of(value).as_str())))
    } else {
        Err(joined("unsupported column field `", key, "`"))
    }
}

fn parse_column_definition(definition: &str) -> (r: Result<(ResizeSpec, InlineStyle), String>)
    ensures
        outcome(r) == definition_of(definition@),
{
    let chars = chars_of(definition);
    let parts = split(chars.as_slice(), ';');
    let ghost all = pieces(parts@);
    let mut rule = ResizeSpec::Resize;
    let mut style = InlineStyle::default();
    let mut i: usize = 0;
    while i < parts.len()
        invariant
            i <= parts.len(),
            all == pieces(parts@),
            all == fields(definition@, ';'),
            definition_of_parts(all.take(i as int)) == Ok::<(ResizeSpec, InlineStyle), Seq<char>>(
                (rule, style),
            ),
        decreases parts.len() - i,
    {
        proof {
            let t = all.take(i + 1);
            assert(t.drop_last() =~= all.take(i as int));
            assert(t.last() == parts@[i as int]@);
        }
        match apply_field(rule, style, parts[i]) {
            Ok((next_rule, next_style)) => {
                rule = next_rule;
                style = next_style;
            },
            Err(message) => {
                proof {
                    lemma_definition_error(all, i + 1);
                }
                return Err(message);
            },
        }
        i = i + 1;
    }
    assert(all.take(all.len() as int) =~= all);
    Ok((rule, style))
}

/// An error in a field stays the outcome.
proof fn lemma_definition_error(parts: Seq<Seq<char>>, n: int)
    requires
        0 <= n <= parts.len(),
        definition_of_parts(parts.take(n)) is Err,
    ensures
        definition_of_parts(parts) == definition_of_parts(parts.take(n)),
    decreases parts.len() - n,
{
    if n == parts.len() {
        assert(parts.take(n) =~= parts);
    } else {
        assert(parts.take(n + 1).drop_last() =~= parts.take(n));
        lemma_definition_error(parts, n + 1);
    }
}

/// An error in a column stays the outcome.
proof fn lemma_columns_error(
    config: Map<Seq<char>, Seq<char>>,
    wanted: Seq<Seq<char>>,
    n: int,
)
    requires
        0 <= n <= wanted.len(),
        columns_named(config, wanted.take(n)) is Err,
    ensures
        columns_named(config, wanted) == columns_named(config, wanted.take(n)),
    decreases wanted.len() - n,
{
    if n == wanted.len() {
        assert(wanted.take(n) =~= wanted);
    } else {
        assert(wanted.take(n + 1).drop_last() =~= wanted.take(n));
        lemma_columns_error(config, wanted, n + 1);
    }
}

// ---------------------------------------------------------------------------------------
// Schema
// ---------------------------------------------------------------------------------------

/// The columns of the tab list, in order.
#[derive(Debug, PartialEq, Eq)]
pub struct Schema {
    columns: Vec<ColumnSpec>,
}

/// At least one column, each under a name of its own that is not empty and has no white
/// space around it.
pub open spec fn well_named(columns: Seq<ColumnView>) -> bool {
    &&& columns.len() > 0
    &&& names(columns).no_duplicates()
    &&& forall|i: int|
        0 <= i < columns.len() ==> (#[trigger] columns[i]).name.len() > 0 && trimmed(
            columns[i].name,
        ) == columns[i].name
}

impl View for Schema {
    type V = Seq<ColumnView>;

    closed spec fn view(&self) -> Seq<ColumnView> {
        column_views(self.columns@)
    }
}

impl Clone for Schema {
    fn clone(&self) -> (r: Self)
        ensures
            r@ == self@,
    {
        proof {
            use_type_invariant(self);
        }
        let mut columns: Vec<ColumnSpec> = Vec::new();
        let mut i: usize = 0;
        while i < self.columns.len()
            invariant
                i <= self.columns.len(),
                column_views(columns@) == column_views(self.columns@).take(i as int),
            decreases self.columns.len() - i,
        {
            let ghost before = column_views(columns@);
            columns.push(self.columns[i].duplicate());
            i = i + 1;
            assert(column_views(columns@) =~= before.push(self.columns@[i - 1]@));
            assert(column_views(columns@) =~= column_views(self.columns@).take(i as int));
        }
        assert(column_views(columns@) =~= column_views(self.columns@));
        Schema { columns }
    }
}

/// The names among the words of a text are not empty and have no white space around them.
proof fn lemma_words(parts: Seq<Seq<char>>)
    ensures
        forall|i: int|
            0 <= i < words(parts).len() ==> (#[trigger] words(parts)[i]).len() > 0 && trimmed(
                words(parts)[i],
            ) == words(parts)[i],
    decreases parts.len(),
{
    if parts.len() > 0 {
        let before = words(parts.drop_last());
        lemma_words(parts.drop_last());
        trimming_twice_is_trimming_once(parts.last());
        assert forall|i: int| 0 <= i < words(parts).len() implies (#[trigger] words(
            parts,
        )[i]).len() > 0 && trimmed(words(parts)[i]) == words(parts)[i] by {
            if i < before.len() {
                assert(words(parts)[i] == before[i]);
            }
        }
    }
}

/// The columns of the given names have those names, all different.
proof fn lemma_columns_named(config: Map<Seq<char>, Seq<char>>, wanted: Seq<Seq<char>>)
    ensures
        columns_named(config, wanted) matches Ok(columns) ==> names(columns) == wanted
            && wanted.no_duplicates(),
    decreases wanted.len(),
{
    if wanted.len() > 0 {
        let front = wanted.drop_last();
        lemma_columns_named(config, front);
        if let Ok(before) = columns_named(config, front) {
            if let Ok(columns) = columns_named(config, wanted) {
                assert(names(columns) =~= names(before).push(wanted.last()));
                assert(wanted =~= front.push(wanted.last()));
                assert forall|i: int, j: int|
                    0 <= i < wanted.len() && 0 <= j < wanted.len() && i != j implies wanted[i]
                    != wanted[j] by {
                    if j == wanted.len() - 1 {
                        assert(front[i] == wanted[i]);
                        assert(names(before).contains(front[i]));
                    } else if i == wanted.len() - 1 {
                        assert(front[j] == wanted[j]);
                        assert(names(before).contains(front[j]));
                    } else {
                        assert(front[i] == wanted[i] && front[j] == wanted[j]);
                    }
                }
            }
        }
    }
}

/// A configuration that is in order gives columns with proper names: those that it lists, in
/// the order in which it lists them.
pub proof fn configured_columns_are_well_named(config: Map<Seq<char>, Seq<char>>)
    ensures
        columns_of_config(config) matches Ok(columns) ==> {
            &&& well_named(columns)
            &&& names(columns) == words(fields(config["columns"@], ','))
        },
{
    if let Ok(columns) = columns_of_config(config) {
        let parts = fields(config["columns"@], ',');
        lemma_words(parts);
        lemma_columns_named(config, words(parts));
        assert forall|i: int| 0 <= i < columns.len() implies (#[trigger] columns[i]).name.len() > 0
            && trimmed(columns[i].name) == columns[i].name by {
            assert(names(columns)[i] == columns[i].name);
        }
    }
}

impl Schema {
    #[verifier::type_invariant]
    spec fn well_formed(self) -> bool {
        well_named(column_views(self.columns@))
    }

    /// Reads the columns that a configuration asks for.
    pub fn from_config(config: &TextMap<String>) -> (r: Result<Self, String>)
        ensures
            match r {
                Ok(schema) => columns_of_config(config@) == Ok::<Seq<ColumnView>, Seq<char>>(
                    schema@,
                ),
                Err(message) => columns_of_config(config@) == Err::<Seq<ColumnView>, Seq<char>>(
                    message@,
                ),
            },
    {
        let listed = match config.get("columns") {
            Some(listed) => chars_of(listed.as_str()),
            None => {
                return Err("missing `columns` plugin config".to_owned());
            },
        };
        let wanted = column_names(listed.as_slice());
        let ghost all = texts(wanted@);
        assert(all.len() == wanted.len());
        if wanted.len() == 0 {
            return Err("`columns` must include at least one column".to_owned());
        }
        let mut columns: Vec<ColumnSpec> = Vec::new();
        let mut i: usize = 0;
        assert(all.take(0) =~= Seq::<Seq<char>>::empty());
        assert(column_views(columns@) =~= Seq::<ColumnView>::empty());
        while i < wanted.len()
            invariant
                i <= wanted.len(),
                all == texts(wanted@),
                columns_of_config(config@) == columns_named(config@, all),
                columns_named(config@, all.take(i as int)) == Ok::<Seq<ColumnView>, Seq<char>>(
                    column_views(columns@),
                ),
            decreases wanted.len() - i,
        {
            let name = &wanted[i];
            proof {
                let t = all.take(i + 1);
                assert(t.drop_last() =~= all.take(i as int));
                assert(t.last() == name@);
            }
            if position_of(&columns, name.as_str()).is_some() {
                proof {
                    lemma_columns_error(config@, all, i + 1);
                }
                return Err(joined("duplicate column `", chars_of(name.as_str()).as_slice(), "`"));
            }
            let mut key = "column_".to_owned();
            key.append(name.as_str());
            let definition = match config.get(key.as_str()) {
                Some(definition) => definition.clone(),
                None => String::new(),
            };
            assert(definition@ =~= setting(config@, "column_"@ + name@));
            match parse_column_definition(definition.as_str()) {
                Ok((resize_spec, default_style)) => {
                    let ghost before = column_views(columns@);
                    columns.push(ColumnSpec { name: name.clone(), resize_spec, default_style });
                    assert(column_views(columns@) =~= before.push(
                        ColumnView { name: name@, rule: resize_spec, style: default_style },
                    ));
                },
                Err(message) => {
                    proof {
                        lemma_columns_error(config@, all, i + 1);
                    }
                    return Err(message);
                },
            }
            i = i + 1;
        }
        assert(all.take(all.len() as int) =~= all);
        proof {
            configured_columns_are_well_named(config@);
        }
        Ok(Schema { columns })
    }

    /// The columns.
    pub fn columns(&self) -> (r: &[ColumnSpec])
        ensures
            column_views(r@) == self@,
            well_named(self@),
    {
        proof {
            use_type_invariant(self);
        }
        self.columns.as_slice()
    }

    /// The number of columns.
    pub fn len(&self) -> (n: usize)
        ensures
            n == self@.len(),
            n > 0,
    {
        proof {
            use_type_invariant(self);
        }
        self.columns.len()
    }

    /// Whether there are no columns: never.
    pub fn is_empty(&self) -> (r: bool)
        ensures
            r == (self@.len() == 0),
            !r,
    {
        self.len() == 0
    }

    /// The position of the column with the given name.
    pub fn index_of(&self, column_name: &str) -> (r: Option<usize>)
        ensures
            match r {
                Some(i) => i < self@.len() && names(self@)[i as int] == column_name@ && forall|
                    j: int,
                |
                    0 <= j < self@.len() && #[trigger] names(self@)[j] == column_name@ ==> j == i,
                None => !names(self@).contains(column_name@),
            },
    {
        proof {
            use_type_invariant(self);
        }
        position_of(&self.columns, column_name)
    }
}

/// The position of the first column with the given name.
fn position_of(columns: &Vec<ColumnSpec>, name: &str) -> (r: Option<usize>)
    ensures
        match r {
            Some(i) => i < columns@.len() && names(column_views(columns@))[i as int] == name@,
            None => !names(column_views(columns@)).contains(name@),
        },
{
    let mut i: usize = 0;
    while i < columns.len()
        invariant
            i <= columns.len(),
            forall|j: int| 0 <= j < i ==> #[trigger] names(column_views(columns@))[j] != name@,
        decreases columns.len() - i,
    {
        if same_text(columns[i].name.as_str(), name) {
            return Some(i);
        }
        i = i + 1;
    }
    None
}

/// The texts of strings.
pub open spec fn texts(v: Seq<String>) -> Seq<Seq<char>> {
    v.map_values(|s: String| s@)
}

/// The names that a list with commas holds.
fn column_names(listed: &[char]) -> (r: Vec<String>)
    ensures
        texts(r@) == words(fields(listed@, ',')),
{
    let parts = split(listed, ',');
    let ghost all = pieces(parts@);
    let mut r: Vec<String> = Vec::new();
    let mut i: usize = 0;
    assert(texts(r@) =~= Seq::<Seq<char>>::empty());
    while i < parts.len()
        invariant
            i <= parts.len(),
            all == pieces(parts@),
            texts(r@) == words(all.take(i as int)),
        decreases parts.len() - i,
    {
        let name = trim(parts[i]);
        let ghost before = texts(r@);
        proof {
            let t = all.take(i + 1);
            assert(t.drop_last() =~= all.take(i as int));
            assert(t.last() == parts@[i as int]@);
        }
        if name.len() > 0 {
            r.push(string_of(name));
            assert(texts(r@) =~= before.push(name@));
        }
        i = i + 1;
    }
    assert(all.take(all.len() as int) =~= all);
    r
}

// ---------------------------------------------------------------------------------------
// Laws
// ---------------------------------------------------------------------------------------

/// The words of two lists one behind the other are the words of the first and then those of the
/// second. A piece gives one word, without the blanks around it, or none if it is blank.
pub proof fn words_stand_in_the_order_of_their_pieces(
    first: Seq<Seq<char>>,
    second: Seq<Seq<char>>,
    piece: Seq<char>,
)
    ensures
        words(first + second) == words(first) + words(second),
        trimmed(piece).len() > 0 ==> words(seq![piece]) == seq![trimmed(piece)],
        trimmed(piece).len() == 0 ==> words(seq![piece]) == Seq::<Seq<char>>::empty(),
    decreases second.len(),
{
    let one = seq![piece];
    assert(one.drop_last() =~= Seq::<Seq<char>>::empty());
    assert(words(one.drop_last()) =~= Seq::<Seq<char>>::empty());
    assert(words(one) =~= if trimmed(piece).len() > 0 {
        seq![trimmed(piece)]
    } else {
        Seq::empty()
    });
    let all = first + second;
    if second.len() == 0 {
        assert(all =~= first);
        assert(words(second) =~= Seq::<Seq<char>>::empty());
        assert(words(first) + words(second) =~= words(first));
    } else {
        words_stand_in_the_order_of_their_pieces(first, second.drop_last(), piece);
        assert(all.drop_last() =~= first + second.drop_last());
        assert(all.last() == second.last());
        assert(words(all) =~= words(first) + words(second));
    }
}

/// A configuration gives columns just if it lists any, no two of the same name, and each of them
/// is defined properly or not at all. Each column is then what the setting under its own name
/// says.
pub proof fn columns_are_what_their_settings_say(config: Map<Seq<char>, Seq<char>>)
    ensures
        ({
            let listed = words(fields(config["columns"@], ','));
            columns_of_config(config) is Ok <==> {
                &&& config.contains_key("columns"@)
                &&& listed.len() > 0
                &&& listed.no_duplicates()
                &&& forall|i: int|
                    0 <= i < listed.len() ==> definition_of(
                        setting(config, "column_"@ + #[trigger] listed[i]),
                    ) is Ok
            }
        }),
        columns_of_config(config) matches Ok(columns) ==> forall|i: int|
            0 <= i < columns.len() ==> if config.contains_key(
                "column_"@ + (#[trigger] columns[i]).name,
            ) {
                definition_of(config["column_"@ + columns[i].name]) == Ok::<
                    (ResizeSpec, InlineStyle),
                    Seq<char>,
                >((columns[i].rule, columns[i].style))
            } else {
                columns[i].rule == ResizeSpec::Resize && columns[i].style == plain_style()
            },
{
    let listed = words(fields(config["columns"@], ','));
    lemma_nothing_defined();
    lemma_columns_defined(config, listed);
    lemma_columns_named(config, listed);
}

/// A column of which nothing is said is as wide as its content, in the plain style.
proof fn lemma_nothing_defined()
    ensures
        definition_of(Seq::empty()) == Ok::<(ResizeSpec, InlineStyle), Seq<char>>(
            (ResizeSpec::Resize, plain_style()),
        ),
{
    let none = Seq::<char>::empty();
    let parts = fields(none, ';');
    assert(parts =~= seq![none]);
    assert(parts.drop_last() =~= Seq::<Seq<char>>::empty());
    assert(trimmed(none) =~= none);
    assert(definition_of_parts(parts.drop_last()) == Ok::<(ResizeSpec, InlineStyle), Seq<char>>(
        (ResizeSpec::Resize, plain_style()),
    ));
}

proof fn lemma_columns_defined(config: Map<Seq<char>, Seq<char>>, wanted: Seq<Seq<char>>)
    ensures
        columns_named(config, wanted) is Ok <==> {
            &&& wanted.no_duplicates()
            &&& forall|i: int|
                0 <= i < wanted.len() ==> definition_of(
                    setting(config, "column_"@ + #[trigger] wanted[i]),
                ) is Ok
        },
        columns_named(config, wanted) matches Ok(columns) ==> columns.len() == wanted.len()
            && forall|i: int|
            0 <= i < columns.len() ==> definition_of(
                setting(config, "column_"@ + (#[trigger] columns[i]).name),
            ) == Ok::<(ResizeSpec, InlineStyle), Seq<char>>((columns[i].rule, columns[i].style)),
    decreases wanted.len(),
{
    if wanted.len() > 0 {
        let front = wanted.drop_last();
        let last = wanted.last();
        lemma_columns_defined(config, front);
        lemma_columns_named(config, front);
        assert(wanted =~= front.push(last));
        let all_defined = |list: Seq<Seq<char>>|
            forall|i: int|
                0 <= i < list.len() ==> definition_of(
                    setting(config, "column_"@ + #[trigger] list[i]),
                ) is Ok;
        if all_defined(wanted) {
            assert forall|i: int| 0 <= i < front.len() implies definition_of(
                setting(config, "column_"@ + #[trigger] front[i]),
            ) is Ok by {
                assert(front[i] == wanted[i]);
            }
            assert(wanted[wanted.len() - 1] == last);
        }
        if all_defined(front) && definition_of(setting(config, "column_"@ + last)) is Ok {
            assert forall|i: int| 0 <= i < wanted.len() implies definition_of(
                setting(config, "column_"@ + #[trigger] wanted[i]),
            ) is Ok by {
                if i < front.len() {
                    assert(wanted[i] == front[i]);
                }
            }
        }
        if wanted.no_duplicates() {
            assert forall|i: int, j: int|
                0 <= i < front.len() && 0 <= j < front.len() && i != j implies front[i]
                != front[j] by {
                assert(wanted[i] != wanted[j]);
            }
            if front.contains(last) {
                let i = choose|i: int| 0 <= i < front.len() && front[i] == last;
                assert(wanted[i] == wanted[wanted.len() - 1]);
            }
        }
        if front.no_duplicates() && !front.contains(last) {
            assert forall|i: int, j: int|
                0 <= i < wanted.len() && 0 <= j < wanted.len() && i != j implies wanted[i]
                != wanted[j] by {
                if i == front.len() {
                    assert(front.contains(front[j]));
                } else if j == front.len() {
                    assert(front.contains(front[i]));
                } else {
                    assert(front[i] != front[j]);
                }
            }
        }
    }
}

/// What a field of a definition says, with blanks behind it.
proof fn lemma_field(key: Seq<char>, value: Seq<char>)
    requires
        key == "resize"@ || key == "style"@,
    ensures
        ({
            let field = trimmed(key + "="@ + value);
            let k = cut(field, '=');
            &&& field.len() > 0
            &&& k < field.len()
            &&& trimmed(field.take(k)) == key
            &&& trimmed(field.skip(k + 1)) == trimmed(value)
        }),
{
    reveal_strlit("resize");
    reveal_strlit("style");
    reveal_strlit("=");
    let front = key + "="@;
    assert(front.last() == '=');
    assert(front[0] == key[0]);
    lemma_trimmed_behind(front, value);
    let field = trimmed(front + value);
    let k = key.len() as int;
    lemma_cut_at(field, '=', k);
    assert(field.take(k) =~= key);
    assert(field.skip(k + 1) =~= trimmed_end(value));
    lemma_trimmed_same(key);
}

/// The two fields of a definition, the rule and the style, can stand in any order, and either
/// alone leaves the other what it is without a definition. A style is never wrong; a rule that is
/// wrong makes the definition wrong.
pub proof fn fields_of_a_column_can_stand_in_any_order(rule: Seq<char>, style: Seq<char>)
    requires
        !rule.contains(';'),
        !style.contains(';'),
    ensures
        ({
            let first = "resize"@ + "="@ + rule;
            let second = "style"@ + "="@ + style;
            let read = |style: InlineStyle|
                match resize_rule(rule) {
                    Ok(rule) => Ok::<(ResizeSpec, InlineStyle), Seq<char>>((rule, style)),
                    Err(message) => Err(message),
                };
            &&& definition_of(put_between(seq![first, second], ';')) == read(
                style_of_literal(style),
            )
            &&& definition_of(put_between(seq![second, first], ';')) == read(
                style_of_literal(style),
            )
            &&& definition_of(first) == read(plain_style())
            &&& definition_of(second) == Ok::<(ResizeSpec, InlineStyle), Seq<char>>(
                (ResizeSpec::Resize, style_of_literal(style)),
            )
        }),
{
    let first = "resize"@ + "="@ + rule;
    let second = "style"@ + "="@ + style;
    reveal_strlit("resize");
    reveal_strlit("style");
    reveal_strlit("=");
    lemma_field("resize"@, rule);
    lemma_field("style"@, style);
    trimming_twice_is_trimming_once(rule);
    trimming_twice_is_trimming_once(style);
    if first.contains(';') {
        let i = choose|i: int| 0 <= i < first.len() && first[i] == ';';
        assert(i >= 7 && rule[i - 7] == ';');
    }
    if second.contains(';') {
        let i = choose|i: int| 0 <= i < second.len() && second[i] == ';';
        assert(i >= 6 && style[i - 6] == ';');
    }
    assert("resize"@[0] != "style"@[0]);
    let both = seq![first, second];
    let turned = seq![second, first];
    texts_are_cut_where_they_were_joined(both, ';');
    texts_are_cut_where_they_were_joined(turned, ';');
    texts_are_cut_where_they_were_joined(seq![first], ';');
    texts_are_cut_where_they_were_joined(seq![second], ';');
    assert(put_between(seq![first], ';') == first);
    assert(put_between(seq![second], ';') == second);
    assert(both.drop_last() =~= seq![first]);
    assert(turned.drop_last() =~= seq![second]);
    assert(seq![first].drop_last() =~= Seq::<Seq<char>>::empty());
    assert(seq![second].drop_last() =~= Seq::<Seq<char>>::empty());
    reveal_with_fuel(definition_of_parts, 3);
}

} // verus!
