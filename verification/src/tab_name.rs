//! Tab names that carry column values: `branch="main" | status="ok"`.
use vstd::prelude::*;
use vstd::slice::slice_subrange;

use crate::map::{distinct_keys, lemma_map_of_keys, lemma_map_of_value, map_of, TextMap};
use crate::markup::{cell_views, CellState, CellView};
use crate::schema::{column_views, names, ColumnSpec};
use crate::text::{
    all_white, blanks_around_a_text_are_trimmed, chars_of, cut, find_char, is_white, lemma_cut,
    lemma_cut_at, lemma_trimmed_ends, lemma_trimmed_same, lemma_trimmed_start_shorter, string_of,
    text_view, trim, trim_start, trimmed, trimmed_start, trimming_takes_off_the_blanks_at_the_ends,
    trimming_twice_is_trimming_once,
};

verus! {

/// The key under which a tab name carries the id of the tab.
pub const SUPER_TAB_ID_KEY: &'static str = "__super_tabs_id";

// ---------------------------------------------------------------------------------------
// Encoding
// ---------------------------------------------------------------------------------------

/// A key with its value.
pub type Entry = (Seq<char>, Seq<char>);

/// A character inside quotes: a backslash stands before a backslash and before a quote.
pub open spec fn escape(c: char) -> Seq<char> {
    if c == '\\' || c == '"' {
        seq!['\\', c]
    } else {
        seq![c]
    }
}

/// A text inside quotes.
pub open spec fn escaped(s: Seq<char>) -> Seq<char>
    decreases s.len(),
{
    if s.len() == 0 {
        Seq::empty()
    } else {
        escape(s[0]) + escaped(s.drop_first())
    }
}

/// An entry as written in a tab name.
pub open spec fn written(entry: Entry) -> Seq<char> {
    entry.0 + seq!['=', '"'] + escaped(entry.1) + seq!['"']
}

/// Entries as written in a tab name, with bars between them.
pub open spec fn written_all(entries: Seq<Entry>) -> Seq<char>
    decreases entries.len(),
{
    if entries.len() == 0 {
        Seq::empty()
    } else if entries.len() == 1 {
        written(entries[0])
    } else {
        written_all(entries.drop_last()) + seq![' ', '|', ' '] + written(entries.last())
    }
}

/// The text of a cell; nothing for one that was not written.
pub open spec fn cell_text(cells: Seq<Option<CellView>>, i: int) -> Seq<char> {
    if 0 <= i < cells.len() && cells[i] is Some {
        cells[i]->0.plain_text
    } else {
        Seq::empty()
    }
}

/// The columns among the first `n` that have a text, with it.
pub open spec fn column_entries(
    names: Seq<Seq<char>>,
    cells: Seq<Option<CellView>>,
    n: int,
) -> Seq<Entry>
    decreases n,
{
    if n <= 0 {
        Seq::empty()
    } else {
        let before = column_entries(names, cells, n - 1);
        let text = cell_text(cells, n - 1);
        if text.len() == 0 {
            before
        } else {
            before.push((names[n - 1], text))
        }
    }
}

/// The id of a tab, where it has one.
pub open spec fn id_entries(id: Option<Seq<char>>) -> Seq<Entry> {
    match id {
        Some(id) => if id.len() > 0 {
            seq![(SUPER_TAB_ID_KEY@, id)]
        } else {
            Seq::empty()
        },
        None => Seq::empty(),
    }
}

/// What the name of a tab carries: its id first, then the columns that have a text.
pub open spec fn tab_entries(
    names: Seq<Seq<char>>,
    cells: Seq<Option<CellView>>,
    id: Option<Seq<char>>,
) -> Seq<Entry> {
    id_entries(id) + column_entries(names, cells, names.len() as int)
}

fn push_escaped(out: &mut String, value: &str)
    ensures
        final(out)@ == old(out)@ + escaped(value@),
{
    let chars = chars_of(value);
    let ghost start = out@;
    let mut i: usize = 0;
    assert(value@.skip(0) =~= value@);
    while i < chars.len()
        invariant
            i <= chars.len(),
            chars@ == value@,
            start + escaped(value@) == out@ + escaped(value@.skip(i as int)),
        decreases chars.len() - i,
    {
        let c = chars[i];
        let ghost before = out@;
        let ghost rest = value@.skip(i as int);
        if c == '\\' || c == '"' {
            out.push('\\');
        }
        out.push(c);
        i = i + 1;
        proof {
            assert(rest.drop_first() =~= value@.skip(i as int));
            assert(out@ =~= before + escape(c));
            assert(before + (escape(c) + escaped(rest.drop_first())) =~= out@ + escaped(
                rest.drop_first(),
            ));
        }
    }
    assert(value@.skip(i as int) =~= Seq::<char>::empty());
    assert(out@ + escaped(value@.skip(i as int)) =~= out@);
}

/// Adds an entry to what was written so far.
fn push_encoded_part(out: &mut String, Ghost(entries): Ghost<Seq<Entry>>, key: &str, value: &str)
    requires
        old(out)@ == written_all(entries),
    ensures
        final(out)@ == written_all(entries.push((key@, value@))),
{
    let ghost entry: Entry = (key@, value@);
    let ghost start = out@;
    if !out.as_str().is_empty() {
        out.append(" | ");
    }
    let ghost middle = out@;
    out.append(key);
    out.append("=\"");
    push_escaped(out, value);
    out.append("\"");
    proof {
        reveal_strlit(" | ");
        reveal_strlit("=\"");
        reveal_strlit("\"");
        assert("=\""@ =~= seq!['=', '"']);
        assert("\""@ =~= seq!['"']);
        assert(" | "@ =~= seq![' ', '|', ' ']);
        assert(out@ =~= middle + written(entry));
        let all = entries.push(entry);
        assert(all.drop_last() =~= entries);
        if entries.len() == 0 {
            assert(start =~= Seq::<char>::empty());
            assert(middle + written(entry) =~= written(entry));
        } else {
            lemma_written_not_empty(entries);
        }
    }
}

/// Something is written where there is an entry.
proof fn lemma_written_not_empty(entries: Seq<Entry>)
    requires
        entries.len() > 0,
    ensures
        written_all(entries).len() > 0,
        written_all(entries).last() == '"',
{
}

/// The name of a tab with the given cells.
pub fn encode_tab_name(columns: &[ColumnSpec], cells: &[Option<CellState>]) -> (r: String)
    ensures
        r@ == written_all(tab_entries(names(column_views(columns@)), cell_views(cells@), None)),
{
    encode_tab_name_with_id(columns, cells, None)
}

/// The name of a tab with the given cells and the given id.
pub fn encode_tab_name_with_id(
    columns: &[ColumnSpec],
    cells: &[Option<CellState>],
    super_tab_id: Option<&str>,
) -> (r: String)
    ensures
        r@ == written_all(
            tab_entries(
                names(column_views(columns@)),
                cell_views(cells@),
                text_view(super_tab_id),
            ),
        ),
{
    let ghost keys = names(column_views(columns@));
    let ghost texts = cell_views(cells@);
    let ghost first = id_entries(text_view(super_tab_id));
    let mut out = String::new();
    assert(out@ =~= Seq::<char>::empty());
    if let Some(id) = super_tab_id {
        if !id.is_empty() {
            push_encoded_part(&mut out, Ghost(Seq::empty()), SUPER_TAB_ID_KEY, id);
            assert(Seq::<Entry>::empty().push((SUPER_TAB_ID_KEY@, id@)) =~= first);
        }
    }
    assert(first + column_entries(keys, texts, 0) =~= first);
    let mut i: usize = 0;
    while i < columns.len()
        invariant
            i <= columns.len(),
            keys == names(column_views(columns@)),
            texts == cell_views(cells@),
            out@ == written_all(first + column_entries(keys, texts, i as int)),
        decreases columns.len() - i,
    {
        let ghost before = first + column_entries(keys, texts, i as int);
        assert(keys[i as int] == columns@[i as int].name@);
        if i < cells.len() {
            assert(texts[i as int] == match cells@[i as int] {
                Some(cell) => Some(cell@),
                None => None,
            });
            if let Some(cell) = &cells[i] {
                if !cell.plain_text.as_str().is_empty() {
                    push_encoded_part(
                        &mut out,
                        Ghost(before),
                        columns[i].name.as_str(),
                        cell.plain_text.as_str(),
                    );
                    assert(before.push((keys[i as int], cell.plain_text@)) =~= first
                        + column_entries(keys, texts, i + 1));
                }
            }
        }
        i = i + 1;
    }
    out
}

// ---------------------------------------------------------------------------------------
// Decoding
// ---------------------------------------------------------------------------------------

/// A value that ends with a quote, and what follows the quote.
pub open spec fn until_quote(s: Seq<char>) -> Option<(Seq<char>, Seq<char>)>
    decreases s.len(),
{
    if s.len() == 0 {
        None
    } else if s[0] == '"' {
        Some((Seq::empty(), s.skip(1)))
    } else if s[0] != '\\' {
        match until_quote(s.skip(1)) {
            Some((value, rest)) => Some((seq![s[0]] + value, rest)),
            None => None,
        }
    } else if s.len() > 1 && (s[1] == '\\' || s[1] == '"') {
        match until_quote(s.skip(2)) {
            Some((value, rest)) => Some((seq![s[1]] + value, rest)),
            None => None,
        }
    } else {
        None
    }
}

/// A value in quotes, and what follows it.
pub open spec fn quoted(s: Seq<char>) -> Option<(Seq<char>, Seq<char>)> {
    if s.len() > 0 && s[0] == '"' {
        until_quote(s.skip(1))
    } else {
        None
    }
}

/// What follows a value is shorter than the whole.
pub proof fn lemma_until_quote_shorter(s: Seq<char>)
    ensures
        until_quote(s) matches Some((_, rest)) ==> rest.len() < s.len(),
    decreases s.len(),
{
    if s.len() > 0 && s[0] != '"' {
        lemma_until_quote_shorter(s.skip(1));
        if s.len() > 1 {
            lemma_until_quote_shorter(s.skip(2));
        }
    }
}

/// The entries of a tab name: keys with quoted values, with bars between them.
pub open spec fn entries_of(s: Seq<char>) -> Option<Seq<Entry>>
    decreases s.len(),
{
    let k = cut(s, '=');
    let key = trimmed(s.take(k));
    if k >= s.len() || key.len() == 0 {
        None
    } else {
        match quoted(trimmed_start(s.skip(k + 1))) {
            None => None,
            Some((value, after)) => {
                let rest = trimmed_start(after);
                proof {
                    lemma_cut(s, '=');
                    lemma_trimmed_start_shorter(s.skip(k + 1));
                    lemma_until_quote_shorter(trimmed_start(s.skip(k + 1)).skip(1));
                    lemma_trimmed_start_shorter(after);
                    lemma_trimmed_start_shorter(rest.skip(1));
                }
                if rest.len() == 0 {
                    Some(seq![(key, value)])
                } else if rest[0] != '|' {
                    None
                } else {
                    match entries_of(trimmed_start(rest.skip(1))) {
                        Some(more) => Some(seq![(key, value)] + more),
                        None => None,
                    }
                }
            },
        }
    }
}

/// What a tab name carries, where it carries anything that can be read.
pub open spec fn decoded(input: Seq<char>) -> Option<Map<Seq<char>, Seq<char>>> {
    if trimmed(input).len() == 0 {
        Some(Map::empty())
    } else {
        match entries_of(trimmed(input)) {
            Some(entries) => Some(map_of(entries)),
            None => None,
        }
    }
}

/// Entries in front of others, if those can be read.
spec fn preceded(front: Seq<Entry>, more: Option<Seq<Entry>>) -> Option<Seq<Entry>> {
    match more {
        Some(more) => Some(front + more),
        None => None,
    }
}

/// Reads a value in quotes. Also gives what follows it.
fn parse_quoted_value(input: &[char]) -> (r: Option<(String, &[char])>)
    ensures
        match r {
            Some((value, rest)) => quoted(input@) == Some((value@, rest@)),
            None => quoted(input@) is None,
        },
{
    if input.len() == 0 || input[0] != '"' {
        return None;
    }
    let ghost goal = until_quote(input@.skip(1));
    let mut value = String::new();
    let mut i: usize = 1;
    proof {
        assert(value@ =~= Seq::<char>::empty());
        if let Some((v, rest)) = goal {
            assert(value@ + v =~= v);
        }
    }
    while i < input.len()
        invariant
            1 <= i <= input.len(),
            input@[0] == '"',
            goal == until_quote(input@.skip(1)),
            match until_quote(input@.skip(i as int)) {
                Some((v, rest)) => goal == Some((value@ + v, rest)),
                None => goal is None,
            },
        decreases input.len() - i,
    {
        let ghost rest = input@.skip(i as int);
        let ghost before = value@;
        assert(rest[0] == input@[i as int]);
        assert(rest.skip(1) =~= input@.skip(i + 1));
        let c = input[i];
        if c == '"' {
            assert(value@ + Seq::<char>::empty() =~= value@);
            return Some((value, slice_subrange(input, i + 1, input.len())));
        }
        if c != '\\' {
            value.push(c);
            i = i + 1;
            proof {
                if let Some((v, r)) = until_quote(rest.skip(1)) {
                    assert(before + (seq![c] + v) =~= value@ + v);
                }
            }
        } else if i + 1 < input.len() && (input[i + 1] == '\\' || input[i + 1] == '"') {
            let d = input[i + 1];
            assert(rest.skip(2) =~= input@.skip(i + 2));
            value.push(d);
            i = i + 2;
            proof {
                if let Some((v, r)) = until_quote(rest.skip(2)) {
                    assert(before + (seq![d] + v) =~= value@ + v);
                }
            }
        } else {
            return None;
        }
    }
    assert(input@.skip(i as int).len() == 0);
    None
}

/// Reads what a tab name carries.
pub fn decode_tab_name(input: &str) -> (r: Option<TextMap<String>>)
    ensures
        match r {
            Some(map) => decoded(input@) == Some(map@),
            None => decoded(input@) is None,
        },
{
    let chars = chars_of(input);
    let all = trim(chars.as_slice());
    let mut result: TextMap<String> = TextMap::new();
    if all.len() == 0 {
        return Some(result);
    }
    let ghost mut done: Seq<Entry> = Seq::empty();
    let mut rest: &[char] = all;
    proof {
        if let Some(e) = entries_of(all@) {
            assert(done + e =~= e);
        }
    }
    loop
        invariant
            all@ == trimmed(input@),
            all@.len() > 0,
            entries_of(all@) == preceded(done, entries_of(rest@)),
            result@ == map_of(done),
        decreases rest@.len(),
    {
        let k: usize = find_char(rest, '=');
        if k >= rest.len() {
            return None;
        }
        let key = trim(slice_subrange(rest, 0, k));
        assert(rest@.subrange(0, k as int) =~= rest@.take(k as int));
        if key.len() == 0 {
            return None;
        }
        let tail = slice_subrange(rest, k + 1, rest.len());
        assert(tail@ =~= rest@.skip(k + 1));
        let ghost before = done;
        match parse_quoted_value(trim_start(tail)) {
            None => {
                return None;
            },
            Some((value, after)) => {
                let ghost entry: Entry = (key@, value@);
                result.insert(string_of(key), value);
                proof {
                    done = done.push(entry);
                    assert(done.drop_last() =~= before);
                }
                proof {
                    lemma_trimmed_start_shorter(after@);
                }
                let after = trim_start(after);
                if after.len() == 0 {
                    assert(before + seq![entry] =~= done);
                    return Some(result);
                }
                if after[0] != '|' {
                    return None;
                }
                let ghost more = after@.skip(1);
                proof {
                    lemma_trimmed_start_shorter(tail@);
                    lemma_until_quote_shorter(trimmed_start(tail@).skip(1));
                    lemma_trimmed_start_shorter(after@.skip(1));
                }
                let next = slice_subrange(after, 1, after.len());
                assert(next@ =~= more);
                rest = trim_start(next);
                proof {
                    if let Some(e) = entries_of(rest@) {
                        assert(before + (seq![entry] + e) =~= done + e);
                    }
                }
            },
        }
    }
}

/// The id that a tab name carries, where it carries one.
pub open spec fn id_in(input: Seq<char>) -> Option<Seq<char>> {
    match decoded(input) {
        Some(map) => if map.contains_key(SUPER_TAB_ID_KEY@) && map[SUPER_TAB_ID_KEY@].len() > 0 {
            Some(map[SUPER_TAB_ID_KEY@])
        } else {
            None
        },
        None => None,
    }
}

/// Reads the id that a tab name carries.
pub fn decode_super_tab_id(input: &str) -> (r: Option<String>)
    ensures
        match r {
            Some(id) => id_in(input@) == Some(id@),
            None => id_in(input@) is None,
        },
{
    match decode_tab_name(input) {
        None => None,
        Some(map) => match map.get(SUPER_TAB_ID_KEY) {
            Some(id) => if id.as_str().is_empty() {
                None
            } else {
                Some(id.clone())
            },
            None => None,
        },
    }
}

// ---------------------------------------------------------------------------------------
// Laws
// ---------------------------------------------------------------------------------------

/// A key that can stand in a tab name: not empty, without white space at its ends and
/// without an equals sign.
pub open spec fn plain_key(key: Seq<char>) -> bool {
    key.len() > 0 && trimmed(key) == key && !key.contains('=')
}

/// Escaping and reading undo each other.
proof fn lemma_escaped_is_read(value: Seq<char>, rest: Seq<char>)
    ensures
        until_quote(escaped(value) + seq!['"'] + rest) == Some((value, rest)),
    decreases value.len(),
{
    let s = escaped(value) + seq!['"'] + rest;
    if value.len() == 0 {
        assert(s[0] == '"');
        assert(s.skip(1) =~= rest);
        assert(value =~= Seq::<char>::empty());
    } else {
        let c = value[0];
        let later = value.drop_first();
        let t = escaped(later) + seq!['"'] + rest;
        lemma_escaped_is_read(later, rest);
        assert(s =~= escape(c) + t);
        assert(seq![c] + later =~= value);
        if c == '\\' || c == '"' {
            assert(s[0] == '\\' && s[1] == c);
            assert(s.skip(2) =~= t);
        } else {
            assert(s[0] == c);
            assert(s.skip(1) =~= t);
        }
    }
}

/// What is written begins with the first entry.
proof fn lemma_written_front(entries: Seq<Entry>)
    requires
        entries.len() > 1,
    ensures
        written_all(entries) == written(entries[0]) + seq![' ', '|', ' '] + written_all(
            entries.drop_first(),
        ),
    decreases entries.len(),
{
    let rest = entries.drop_first();
    let bar = seq![' ', '|', ' '];
    if entries.len() == 2 {
        assert(entries.drop_last() =~= seq![entries[0]]);
        assert(rest =~= seq![entries[1]]);
        assert(written_all(entries.drop_last()) == written(entries[0]));
        assert(written_all(rest) == written(entries[1]));
    } else {
        lemma_written_front(entries.drop_last());
        assert(entries.drop_last().drop_first() =~= rest.drop_last());
        assert(rest.last() == entries.last());
        let a = written(entries[0]);
        let b = written_all(rest.drop_last());
        let c = written(entries.last());
        assert((a + bar + b) + bar + c =~= a + bar + (b + bar + c));
    }
}

proof fn lemma_entries_read_back(entries: Seq<Entry>)
    requires
        entries.len() > 0,
        forall|i: int| 0 <= i < entries.len() ==> plain_key((#[trigger] entries[i]).0),
    ensures
        entries_of(written_all(entries)) == Some(entries),
        !is_white(written_all(entries)[0]),
    decreases entries.len(),
{
    let s = written_all(entries);
    let (key, value) = entries[0];
    let later = entries.drop_first();
    let bar = seq![' ', '|', ' '];
    let tail = if entries.len() == 1 {
        Seq::empty()
    } else {
        bar + written_all(later)
    };
    assert(plain_key(entries[0].0));
    lemma_trimmed_ends(key);
    let inner = escaped(value) + seq!['"'] + tail;
    if entries.len() > 1 {
        lemma_written_front(entries);
    }
    assert(s =~= key + seq!['=', '"'] + inner);
    assert forall|i: int| 0 <= i < key.len() implies s[i] != '=' by {
        assert(s[i] == key[i]);
        assert(key.contains(key[i]));
    }
    assert(s[key.len() as int] == '=');
    lemma_cut_at(s, '=', key.len() as int);
    assert(s.take(key.len() as int) =~= key);
    let after = s.skip(key.len() as int + 1);
    assert(after =~= seq!['"'] + inner);
    assert(trimmed_start(after) == after);
    assert(after.skip(1) =~= inner);
    lemma_escaped_is_read(value, tail);
    assert(quoted(after) == Some((value, tail)));
    if entries.len() == 1 {
        assert(trimmed_start(tail) =~= Seq::<char>::empty());
        assert(seq![(key, value)] =~= entries);
    } else {
        assert forall|i: int| 0 <= i < later.len() implies plain_key((#[trigger] later[i]).0) by {
            assert(later[i] == entries[i + 1]);
        }
        lemma_entries_read_back(later);
        let body = written_all(later);
        assert(tail.drop_first() =~= seq!['|', ' '] + body);
        assert(tail[0] == ' ');
        assert(tail.drop_first()[0] == '|');
        assert(trimmed_start(tail.drop_first()) == tail.drop_first());
        assert(trimmed_start(tail) == tail.drop_first());
        let spaced = tail.drop_first().skip(1);
        assert(spaced =~= seq![' '] + body);
        assert(spaced.drop_first() =~= body);
        lemma_written_not_empty(later);
        assert(trimmed_start(body) == body);
        assert(trimmed_start(spaced) == body);
        assert(seq![(key, value)] + later =~= entries);
    }
}

/// Entries written into a tab name are read back from it, whatever their values hold.
pub proof fn written_entries_are_read_back(entries: Seq<Entry>)
    requires
        forall|i: int| 0 <= i < entries.len() ==> plain_key((#[trigger] entries[i]).0),
    ensures
        decoded(written_all(entries)) == Some(map_of(entries)),
{
    if entries.len() > 0 {
        let s = written_all(entries);
        lemma_entries_read_back(entries);
        lemma_written_not_empty(entries);
        lemma_trimmed_same(s);
    } else {
        assert(trimmed(Seq::<char>::empty()) =~= Seq::<char>::empty());
        assert(map_of(entries) == Map::<Seq<char>, Seq<char>>::empty());
    }
}

/// The key of the id is a plain key.
proof fn lemma_id_key()
    ensures
        plain_key(SUPER_TAB_ID_KEY@),
{
    reveal_strlit("__super_tabs_id");
    let key = SUPER_TAB_ID_KEY@;
    lemma_trimmed_same(key);
    assert forall|i: int| 0 <= i < key.len() implies key[i] != '=' by {}
}

/// The entries of columns are those of the columns that have a text.
proof fn lemma_column_entries(
    names: Seq<Seq<char>>,
    cells: Seq<Option<CellView>>,
    n: int,
    k: int,
)
    requires
        0 <= n <= names.len(),
        0 <= k < column_entries(names, cells, n).len(),
    ensures
        exists|i: int|
            0 <= i < n && #[trigger] names[i] == column_entries(names, cells, n)[k].0 && cell_text(
                cells,
                i,
            ) == column_entries(names, cells, n)[k].1 && cell_text(cells, i).len() > 0,
    decreases n,
{
    let all = column_entries(names, cells, n);
    let before = column_entries(names, cells, n - 1);
    if k < before.len() {
        lemma_column_entries(names, cells, n - 1, k);
        let i = choose|i: int|
            0 <= i < n - 1 && #[trigger] names[i] == before[k].0 && cell_text(cells, i)
                == before[k].1 && cell_text(cells, i).len() > 0;
        assert(names[i] == all[k].0);
    } else {
        assert(names[n - 1] == all[k].0);
    }
}

/// Every column that has a text is among the entries.
proof fn lemma_column_has_entry(
    names: Seq<Seq<char>>,
    cells: Seq<Option<CellView>>,
    n: int,
    i: int,
) -> (k: int)
    requires
        0 <= i < n <= names.len(),
        cell_text(cells, i).len() > 0,
    ensures
        0 <= k < column_entries(names, cells, n).len(),
        column_entries(names, cells, n)[k] == (names[i], cell_text(cells, i)),
    decreases n,
{
    if i == n - 1 {
        column_entries(names, cells, n - 1).len() as int
    } else {
        lemma_column_has_entry(names, cells, n - 1, i)
    }
}

/// The name of a tab carries its id and the text of every column that has one, and nothing
/// else: the id and the texts are read back, and a column without a text is absent.
pub proof fn tab_names_carry_id_and_texts(
    names: Seq<Seq<char>>,
    cells: Seq<Option<CellView>>,
    id: Option<Seq<char>>,
)
    requires
        forall|i: int|
            0 <= i < names.len() ==> plain_key(#[trigger] names[i]) && names[i] != SUPER_TAB_ID_KEY@,
        names.no_duplicates(),
    ensures
        ({
            let name = written_all(tab_entries(names, cells, id));
            &&& decoded(name) is Some
            &&& forall|i: int| #![trigger names[i]]
                0 <= i < names.len() ==> if cell_text(cells, i).len() > 0 {
                    decoded(name)->0.contains_key(names[i]) && decoded(name)->0[names[i]]
                        == cell_text(cells, i)
                } else {
                    !decoded(name)->0.contains_key(names[i])
                }
            &&& forall|key: Seq<char>| #[trigger]
                decoded(name)->0.contains_key(key) ==> key == SUPER_TAB_ID_KEY@ || names.contains(
                    key,
                )
            &&& decoded(name)->0.contains_key(SUPER_TAB_ID_KEY@) == (id is Some && id->0.len() > 0)
            &&& id_in(name) == (if id is Some && id->0.len() > 0 {
                id
            } else {
                None
            })
        }),
{
    let n = names.len() as int;
    let first = id_entries(id);
    let columns = column_entries(names, cells, n);
    let all = tab_entries(names, cells, id);
    lemma_id_key();
    assert forall|k: int| 0 <= k < all.len() implies plain_key((#[trigger] all[k]).0) by {
        if k >= first.len() {
            assert(all[k] == columns[k - first.len()]);
            lemma_column_entries(names, cells, n, k - first.len());
        }
    }
    written_entries_are_read_back(all);
    let map = map_of(all);
    lemma_entries_distinct(names, cells, id);
    assert forall|i: int| #![trigger names[i]] 0 <= i < names.len() implies if cell_text(
        cells,
        i,
    ).len() > 0 {
        map.contains_key(names[i]) && map[names[i]] == cell_text(cells, i)
    } else {
        !map.contains_key(names[i])
    } by {
        lemma_map_of_keys(all, names[i]);
        if cell_text(cells, i).len() > 0 {
            let k = lemma_column_has_entry(names, cells, n, i);
            assert(all[first.len() + k] == columns[k]);
            lemma_map_of_value(all, first.len() + k);
        } else if map.contains_key(names[i]) {
            let k = choose|k: int| 0 <= k < all.len() && (#[trigger] all[k]).0 == names[i];
            assert(k >= first.len());
            assert(all[k] == columns[k - first.len()]);
            lemma_column_entries(names, cells, n, k - first.len());
            let j = choose|j: int|
                0 <= j < n && #[trigger] names[j] == columns[k - first.len()].0 && cell_text(
                    cells,
                    j,
                ) == columns[k - first.len()].1 && cell_text(cells, j).len() > 0;
            assert(names[j] == names[i]);
            assert(j == i);
        }
    }
    assert forall|key: Seq<char>| #[trigger] map.contains_key(key) implies key
        == SUPER_TAB_ID_KEY@ || names.contains(key) by {
        lemma_map_of_keys(all, key);
        let k = choose|k: int| 0 <= k < all.len() && (#[trigger] all[k]).0 == key;
        if k >= first.len() {
            assert(all[k] == columns[k - first.len()]);
            lemma_column_entries(names, cells, n, k - first.len());
        }
    }
    lemma_map_of_keys(all, SUPER_TAB_ID_KEY@);
    if id is Some && id->0.len() > 0 {
        assert(all[0] == first[0]);
        lemma_map_of_value(all, 0);
    } else if map.contains_key(SUPER_TAB_ID_KEY@) {
        let k = choose|k: int| 0 <= k < all.len() && (#[trigger] all[k]).0 == SUPER_TAB_ID_KEY@;
        assert(all[k] == columns[k]);
        lemma_column_entries(names, cells, n, k);
        assert(false);
    }
}

/// No two entries of a tab name have the same key.
proof fn lemma_entries_distinct(
    names: Seq<Seq<char>>,
    cells: Seq<Option<CellView>>,
    id: Option<Seq<char>>,
)
    requires
        forall|i: int| 0 <= i < names.len() ==> #[trigger] names[i] != SUPER_TAB_ID_KEY@,
        names.no_duplicates(),
    ensures
        distinct_keys(tab_entries(names, cells, id)),
{
    let n = names.len() as int;
    let first = id_entries(id);
    let columns = column_entries(names, cells, n);
    let all = tab_entries(names, cells, id);
    lemma_columns_distinct(names, cells, n);
    assert forall|i: int, j: int| 0 <= i < j < all.len() implies (#[trigger] all[i]).0 != (
    #[trigger] all[j]).0 by {
        assert(all[j] == columns[j - first.len()]);
        if i >= first.len() {
            assert(all[i] == columns[i - first.len()]);
        } else {
            lemma_column_entries(names, cells, n, j - first.len());
        }
    }
}

proof fn lemma_columns_distinct(names: Seq<Seq<char>>, cells: Seq<Option<CellView>>, n: int)
    requires
        0 <= n <= names.len(),
        names.no_duplicates(),
    ensures
        distinct_keys(column_entries(names, cells, n)),
    decreases n,
{
    if n > 0 {
        let before = column_entries(names, cells, n - 1);
        let all = column_entries(names, cells, n);
        lemma_columns_distinct(names, cells, n - 1);
        assert forall|i: int, j: int| 0 <= i < j < all.len() implies (#[trigger] all[i]).0 != (
        #[trigger] all[j]).0 by {
            assert(all[i] == before[i]);
            if j < before.len() {
                assert(all[j] == before[j]);
            } else {
                lemma_column_entries(names, cells, n - 1, i);
            }
        }
    }
}

/// Blanks around a tab name change nothing in what is read from it.
pub proof fn blanks_around_a_name_change_nothing(
    before: Seq<char>,
    name: Seq<char>,
    behind: Seq<char>,
)
    requires
        all_white(before),
        all_white(behind),
    ensures
        decoded(before + name + behind) == decoded(name),
        id_in(before + name + behind) == id_in(name),
{
    blanks_around_a_text_are_trimmed(before, name, behind);
}

proof fn lemma_keys_read_are_plain(s: Seq<char>)
    ensures
        entries_of(s) matches Some(entries) ==> entries.len() > 0 && forall|i: int|
            0 <= i < entries.len() ==> plain_key((#[trigger] entries[i]).0),
    decreases s.len(),
{
    let k = cut(s, '=');
    lemma_cut(s, '=');
    if let Some(entries) = entries_of(s) {
        let key = trimmed(s.take(k));
        trimming_twice_is_trimming_once(s.take(k));
        trimming_takes_off_the_blanks_at_the_ends(s.take(k));
        if key.contains('=') {
            let i = choose|i: int| 0 <= i < key.len() && key[i] == '=';
            let (from, to) = choose|from: int, to: int|
                {
                    &&& 0 <= from <= to <= s.take(k).len()
                    &&& key == #[trigger] s.take(k).subrange(from, to)
                    &&& all_white(s.take(k).subrange(0, from))
                    &&& all_white(s.take(k).subrange(to, s.take(k).len() as int))
                };
            assert(s.take(k).subrange(from, to)[i] == s[from + i]);
        }
        assert(plain_key(key));
        let (value, after) = quoted(trimmed_start(s.skip(k + 1)))->0;
        let rest = trimmed_start(after);
        lemma_trimmed_start_shorter(s.skip(k + 1));
        lemma_until_quote_shorter(trimmed_start(s.skip(k + 1)).skip(1));
        lemma_trimmed_start_shorter(after);
        if rest.len() > 0 {
            lemma_trimmed_start_shorter(rest.skip(1));
            let later = trimmed_start(rest.skip(1));
            lemma_keys_read_are_plain(later);
            let more = entries_of(later)->0;
            assert(entries == seq![(key, value)] + more);
            assert forall|i: int| 0 <= i < entries.len() implies plain_key(
                (#[trigger] entries[i]).0,
            ) by {
                if i > 0 {
                    assert(entries[i] == more[i - 1]);
                }
            }
        }
    }
}

/// What was read from a tab name, however it was written, can be written again: the name that
/// gives is read as the same. Every key in it has a letter, none holds an equals sign, and none
/// begins or ends with a blank.
pub proof fn names_that_can_be_read_can_be_written_again(name: Seq<char>)
    requires
        trimmed(name).len() > 0,
    ensures
        entries_of(trimmed(name)) matches Some(entries) ==> {
            &&& decoded(written_all(entries)) == decoded(name)
            &&& forall|i: int| 0 <= i < entries.len() ==> plain_key((#[trigger] entries[i]).0)
        },
{
    lemma_keys_read_are_plain(trimmed(name));
    if let Some(entries) = entries_of(trimmed(name)) {
        written_entries_are_read_back(entries);
    }
}

} // verus!
