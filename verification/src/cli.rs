//! The command line: `super-tabs set [--pane <id>] column=value ...`.
use vstd::prelude::*;
use vstd::slice::slice_subrange;

use crate::map::{map_of, TextMap};
use crate::protocol::{payload_fault, PayloadView, UpdatePayload};
use crate::schema::texts;
use crate::tab_name::Entry;
use crate::text::{
    chars_of, cut, decimal, digit_value, find_char, joined, lemma_cut, lemma_cut_at, lemma_decimal,
    lemma_trimmed_same, number, number_reads_decimal, outcome, parse_number, same_text, string_of,
    string_view, trim, trimmed,
};

verus! {

/// What the command line asks for.
#[derive(Debug)]
pub struct CliCommand {
    pub pane_id: u32,
    pub updates: TextMap<String>,
}

/// How to use the command.
pub open spec fn usage_text() -> Seq<char> {
    "usage: super-tabs set [--pane <id>] column=value [column=value ...]"@
}

/// How to use the command.
pub fn usage() -> (r: String)
    ensures
        r@ == usage_text(),
{
    "usage: super-tabs set [--pane <id>] column=value [column=value ...]".to_owned()
}

/// The pane id that a text stands for.
pub open spec fn pane_number(input: Seq<char>) -> Result<u32, Seq<char>> {
    match number(trimmed(input), 10, u32::MAX as int) {
        Some(n) => Ok(n as u32),
        None => Err("invalid pane id `"@ + input + "`"@),
    }
}

/// Reads a pane id.
pub fn parse_pane_id(input: &str) -> (r: Result<u32, String>)
    ensures
        outcome(r) == pane_number(input@),
{
    let chars = chars_of(input);
    match parse_number(trim(chars.as_slice()), 10, u32::MAX as u64) {
        Some(n) => Ok(n as u32),
        None => Err(joined("invalid pane id `", chars.as_slice(), "`")),
    }
}

/// A word asks for help.
pub open spec fn asks_for_help(word: Seq<char>) -> bool {
    word == "--help"@ || word == "-h"@
}

fn help_wanted(word: &str) -> (r: bool)
    ensures
        r == asks_for_help(word@),
{
    same_text(word, "--help") || same_text(word, "-h")
}

/// The pane and the columns that words behind `set` ask for, after those read before.
pub open spec fn words_read(
    words: Seq<Seq<char>>,
    pane: Option<u32>,
    entries: Seq<Entry>,
) -> Result<(Option<u32>, Seq<Entry>), Seq<char>>
    decreases words.len(),
{
    let word = words[0];
    let k = cut(word, '=');
    if words.len() == 0 {
        Ok((pane, entries))
    } else if asks_for_help(word) {
        Err(usage_text())
    } else if word == "--pane"@ {
        if words.len() == 1 {
            Err("`--pane` requires a numeric pane id"@)
        } else {
            match pane_number(words[1]) {
                Ok(n) => words_read(words.skip(2), Some(n), entries),
                Err(message) => Err(message),
            }
        }
    } else if k >= word.len() {
        Err("expected COLUMN=value argument, got `"@ + word + "`"@)
    } else if trimmed(word.take(k)).len() == 0 {
        Err("invalid empty column name in `"@ + word + "`"@)
    } else {
        words_read(
            words.skip(1),
            pane,
            entries.push((trimmed(word.take(k)), word.skip(k + 1))),
        )
    }
}

/// The pane and the columns that a command line asks for, with the pane of the environment
/// where it names none.
pub open spec fn command_read(words: Seq<Seq<char>>, pane_env: Option<Seq<char>>) -> Result<
    (u32, Map<Seq<char>, Seq<char>>),
    Seq<char>,
> {
    if words.len() == 0 || asks_for_help(words[0]) {
        Err(usage_text())
    } else if words[0] != "set"@ {
        Err("unsupported command `"@ + words[0] + "`\n\n"@ + usage_text())
    } else {
        match words_read(words.skip(1), None, Seq::empty()) {
            Err(message) => Err(message),
            Ok((pane, entries)) => if entries.len() == 0 {
                Err("no column updates supplied\n\n"@ + usage_text())
            } else {
                match (pane, pane_env) {
                    (Some(n), _) => Ok((n, map_of(entries))),
                    (None, Some(text)) => match pane_number(text) {
                        Ok(n) => Ok((n, map_of(entries))),
                        Err(message) => Err(message),
                    },
                    (None, None) => Err(
                        "missing `ZELLIJ_PANE_ID`; pass `--pane <id>` when outside the target pane"@,
                    ),
                }
            },
        }
    }
}

/// The result of reading a command line, with the texts in it.
pub open spec fn command_view(r: Result<CliCommand, String>) -> Result<
    (u32, Map<Seq<char>, Seq<char>>),
    Seq<char>,
> {
    match r {
        Ok(command) => Ok((command.pane_id, command.updates@)),
        Err(message) => Err(message@),
    }
}

/// Reads the words of a command line. `pane_env` is the pane of the environment.
pub fn parse_args(args: Vec<String>, pane_env: Option<String>) -> (r: Result<CliCommand, String>)
    ensures
        command_view(r) == command_read(texts(args@), string_view(pane_env)),
{
    let ghost words = texts(args@);
    if args.len() == 0 || help_wanted(args[0].as_str()) {
        return Err(usage());
    }
    if !same_text(args[0].as_str(), "set") {
        let mut message = joined(
            "unsupported command `",
            chars_of(args[0].as_str()).as_slice(),
            "`\n\n",
        );
        message.append(usage().as_str());
        return Err(message);
    }
    let mut pane_id: Option<u32> = None;
    let mut updates: TextMap<String> = TextMap::new();
    let mut any = false;
    let ghost mut entries: Seq<Entry> = Seq::empty();
    let ghost goal = words_read(words.skip(1), None, Seq::empty());
    let mut i: usize = 1;
    while i < args.len()
        invariant
            1 <= i <= args.len(),
            words == texts(args@),
            words.len() > 0 && !asks_for_help(words[0]) && words[0] == "set"@,
            goal == words_read(words.skip(1), None, Seq::empty()),
            goal == words_read(words.skip(i as int), pane_id, entries),
            updates@ == map_of(entries),
            any == (entries.len() > 0),
        decreases args.len() - i,
    {
        let ghost rest = words.skip(i as int);
        let word = &args[i];
        assert(rest[0] == word@);
        assert(rest.skip(1) =~= words.skip(i + 1));
        if help_wanted(word.as_str()) {
            return Err(usage());
        }
        if same_text(word.as_str(), "--pane") {
            if i + 1 >= args.len() {
                return Err("`--pane` requires a numeric pane id".to_owned());
            }
            assert(rest[1] == args@[i + 1]@);
            assert(rest.skip(2) =~= words.skip(i + 2));
            match parse_pane_id(args[i + 1].as_str()) {
                Ok(n) => {
                    pane_id = Some(n);
                },
                Err(message) => {
                    return Err(message);
                },
            }
            i = i + 2;
        } else {
            let chars = chars_of(word.as_str());
            let k: usize = find_char(chars.as_slice(), '=');
            if k >= chars.len() {
                return Err(
                    joined("expected COLUMN=value argument, got `", chars.as_slice(), "`"),
                );
            }
            let key = trim(slice_subrange(chars.as_slice(), 0, k));
            assert(chars@.subrange(0, k as int) =~= chars@.take(k as int));
            if key.len() == 0 {
                return Err(joined("invalid empty column name in `", chars.as_slice(), "`"));
            }
            let value = slice_subrange(chars.as_slice(), k + 1, chars.len());
            assert(value@ =~= word@.skip(k + 1));
            updates.insert(string_of(key), string_of(value));
            any = true;
            proof {
                let before = entries;
                entries = entries.push((key@, value@));
                assert(entries.drop_last() =~= before);
            }
            i = i + 1;
        }
    }
    assert(words.skip(i as int).len() == 0);
    if !any {
        let mut message = "no column updates supplied\n\n".to_owned();
        message.append(usage().as_str());
        return Err(message);
    }
    let pane_id: u32 = match pane_id {
        Some(n) => n,
        None => match pane_env {
            Some(text) => match parse_pane_id(text.as_str()) {
                Ok(n) => n,
                Err(message) => {
                    return Err(message);
                },
            },
            None => {
                return Err(
                    "missing `ZELLIJ_PANE_ID`; pass `--pane <id>` when outside the target pane".to_owned(),
                );
            },
        },
    };
    Ok(CliCommand { pane_id, updates })
}

impl CliCommand {
    /// The message that asks for what the command line asks for.
    pub fn into_payload(self) -> (r: UpdatePayload)
        ensures
            r@ == (PayloadView { version: 1, pane_id: self.pane_id, updates: self.updates@ }),
    {
        UpdatePayload { version: 1, pane_id: self.pane_id, updates: self.updates }
    }
}

/// The message of a command line that could be read is always valid.
pub proof fn commands_give_valid_payloads(words: Seq<Seq<char>>, pane_env: Option<Seq<char>>)
    ensures
        command_read(words, pane_env) matches Ok((pane_id, updates)) ==> payload_fault(
            PayloadView { version: 1, pane_id, updates },
        ) is None,
{
    if let Ok((pane_id, updates)) = command_read(words, pane_env) {
        if let Ok((pane, entries)) = words_read(words.skip(1), None, Seq::empty()) {
            assert(map_of(entries).contains_key(entries.last().0));
        }
    }
}

/// An update as it is written on the command line.
pub open spec fn update_word(entry: Entry) -> Seq<char> {
    entry.0 + "="@ + entry.1
}

/// Updates as they are written on the command line.
pub open spec fn update_words(entries: Seq<Entry>) -> Seq<Seq<char>> {
    entries.map_values(|entry: Entry| update_word(entry))
}

/// A column can be named on the command line: its name is not empty, begins and ends without a
/// blank and holds no equals sign.
pub open spec fn nameable(column: Seq<char>) -> bool {
    column.len() > 0 && trimmed(column) == column && !column.contains('=')
}

proof fn lemma_update_read(words: Seq<Seq<char>>, pane: Option<u32>, before: Seq<Entry>, entry: Entry)
    requires
        nameable(entry.0),
    ensures
        words_read(seq![update_word(entry)] + words, pane, before) == words_read(
            words,
            pane,
            before.push(entry),
        ),
{
    let all = seq![update_word(entry)] + words;
    let word = all[0];
    let k = entry.0.len() as int;
    reveal_strlit("=");
    reveal_strlit("--pane");
    reveal_strlit("--help");
    reveal_strlit("-h");
    assert(word == update_word(entry));
    assert(word[k] == '=');
    assert forall|i: int| 0 <= i < k implies word[i] != '=' by {
        assert(word[i] == entry.0[i]);
        assert(entry.0.contains(entry.0[i]));
    }
    lemma_cut_at(word, '=', k);
    assert(word.take(k) =~= entry.0);
    assert(word.skip(k + 1) =~= entry.1);
    assert(all.skip(1) =~= words);
    assert forall|i: int| 0 <= i < "--pane"@.len() implies "--pane"@[i] != '=' by {}
    assert forall|i: int| 0 <= i < "--help"@.len() implies "--help"@[i] != '=' by {}
    assert forall|i: int| 0 <= i < "-h"@.len() implies "-h"@[i] != '=' by {}
    assert(word != "--pane"@ && !asks_for_help(word));
}

proof fn lemma_updates_read(
    words: Seq<Seq<char>>,
    pane: Option<u32>,
    before: Seq<Entry>,
    entries: Seq<Entry>,
)
    requires
        forall|i: int| 0 <= i < entries.len() ==> nameable((#[trigger] entries[i]).0),
    ensures
        words_read(update_words(entries) + words, pane, before) == words_read(
            words,
            pane,
            before + entries,
        ),
    decreases entries.len(),
{
    if entries.len() == 0 {
        assert(update_words(entries) + words =~= words);
        assert(before + entries =~= before);
    } else {
        let first = entries[0];
        let later = entries.drop_first();
        assert(nameable(first.0));
        assert forall|i: int| 0 <= i < later.len() implies nameable((#[trigger] later[i]).0) by {
            assert(later[i] == entries[i + 1]);
        }
        lemma_update_read(update_words(later) + words, pane, before, first);
        lemma_updates_read(words, pane, before.push(first), later);
        assert(update_words(entries) + words =~= seq![update_word(first)] + (update_words(later)
            + words));
        assert(before.push(first) + later =~= before + entries);
    }
}

proof fn lemma_pane_read(words: Seq<Seq<char>>, pane: Option<u32>, before: Seq<Entry>, id: u32)
    ensures
        words_read(seq!["--pane"@, decimal(id as nat)] + words, pane, before) == words_read(
            words,
            Some(id),
            before,
        ),
{
    let all = seq!["--pane"@, decimal(id as nat)] + words;
    reveal_strlit("--pane");
    reveal_strlit("--help");
    reveal_strlit("-h");
    assert("--pane"@[2] == 'p' && "--help"@[2] == 'h');
    assert("-h"@.len() == 2);
    assert(all.skip(2) =~= words);
    lemma_decimal(id as nat);
    let digits = decimal(id as nat);
    assert(digit_value(digits[0], 10) is Some && digit_value(digits.last(), 10) is Some);
    lemma_trimmed_same(digits);
    number_reads_decimal(id as nat, u32::MAX as int);
}

/// A command line that names columns, each with its value, asks for just these updates, in the
/// pane that it names, wherever it does so, or else in that of the environment. Of two values for
/// a column the last counts. A pane on the command line comes before that of the environment,
/// which is not even looked at then.
pub proof fn command_lines_ask_for_what_they_name(
    before: Seq<Entry>,
    behind: Seq<Entry>,
    pane: u32,
    other: u32,
    pane_env: Option<Seq<char>>,
)
    requires
        before.len() + behind.len() > 0,
        forall|i: int| 0 <= i < before.len() ==> nameable((#[trigger] before[i]).0),
        forall|i: int| 0 <= i < behind.len() ==> nameable((#[trigger] behind[i]).0),
    ensures
        command_read(
            seq!["set"@] + (update_words(before) + (seq!["--pane"@, decimal(pane as nat)]
                + update_words(behind))),
            pane_env,
        ) == Ok::<(u32, Map<Seq<char>, Seq<char>>), Seq<char>>((pane, map_of(before + behind))),
        command_read(seq!["set"@] + update_words(before + behind), Some(decimal(other as nat)))
            == Ok::<(u32, Map<Seq<char>, Seq<char>>), Seq<char>>((other, map_of(before + behind))),
        command_read(seq!["set"@] + update_words(before + behind), None) is Err,
        command_read(seq!["set"@, "--pane"@, decimal(pane as nat)], pane_env) is Err,
{
    reveal_strlit("set");
    reveal_strlit("--help");
    reveal_strlit("-h");
    assert("set"@[0] == 's' && "--help"@[0] == '-' && "-h"@[0] == '-');
    let none = Seq::<Seq<char>>::empty();
    let nothing = Seq::<Entry>::empty();
    let all = before + behind;
    let rest = seq!["--pane"@, decimal(pane as nat)] + update_words(behind);
    let words = seq!["set"@] + (update_words(before) + rest);
    assert(words.skip(1) =~= update_words(before) + rest);
    lemma_updates_read(rest, None, nothing, before);
    assert(nothing + before =~= before);
    lemma_pane_read(update_words(behind), None, before, pane);
    lemma_updates_read(none, Some(pane), before, behind);
    assert(update_words(behind) + none =~= update_words(behind));
    assert forall|i: int| 0 <= i < all.len() implies nameable((#[trigger] all[i]).0) by {
        if i < before.len() {
            assert(all[i] == before[i]);
        } else {
            assert(all[i] == behind[i - before.len()]);
        }
    }
    lemma_updates_read(none, None, nothing, all);
    assert(update_words(all) + none =~= update_words(all));
    assert(nothing + all =~= all);
    assert((seq!["set"@] + update_words(all)).skip(1) =~= update_words(all));
    let digits = decimal(other as nat);
    lemma_decimal(other as nat);
    assert(digit_value(digits[0], 10) is Some && digit_value(digits.last(), 10) is Some);
    lemma_trimmed_same(digits);
    number_reads_decimal(other as nat, u32::MAX as int);
    lemma_pane_read(none, None, nothing, pane);
    let bare = seq!["set"@, "--pane"@, decimal(pane as nat)];
    assert(bare.skip(1) =~= seq!["--pane"@, decimal(pane as nat)] + none);
}

/// What is read from the first words of a command line decides of the rest: words that are wrong
/// make the command line wrong, whatever follows.
pub proof fn wrong_words_are_refused(
    words: Seq<Seq<char>>,
    pane: Option<u32>,
    entries: Seq<Entry>,
    word: Seq<char>,
)
    requires
        word != "--pane"@,
    ensures
        asks_for_help(word) ==> words_read(seq![word] + words, pane, entries) == Err::<
            (Option<u32>, Seq<Entry>),
            Seq<char>,
        >(usage_text()),
        !asks_for_help(word) && !word.contains('=') ==> words_read(
            seq![word] + words,
            pane,
            entries,
        ) == Err::<(Option<u32>, Seq<Entry>), Seq<char>>(
            "expected COLUMN=value argument, got `"@ + word + "`"@,
        ),
        word.len() > 0 && word[0] == '=' ==> words_read(seq![word] + words, pane, entries) == Err::<
            (Option<u32>, Seq<Entry>),
            Seq<char>,
        >("invalid empty column name in `"@ + word + "`"@),
{
    let all = seq![word] + words;
    assert(all[0] == word);
    lemma_cut(word, '=');
    reveal_strlit("--help");
    reveal_strlit("-h");
    if cut(word, '=') < word.len() {
        assert(word.contains('='));
    }
    if word.len() > 0 && word[0] == '=' {
        assert("--help"@[0] == '-' && "-h"@[0] == '-');
        assert(word.take(0) =~= Seq::<char>::empty());
        assert(trimmed(Seq::<char>::empty()) =~= Seq::<char>::empty());
    }
}

} // verus!
