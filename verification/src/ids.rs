//! Ids of tabs, keys of files, and other small texts with a form of their own.
use vstd::prelude::*;
use vstd::relations::{sorted_by, total_ordering};
use vstd::seq_lib::lemma_sorted_unique;
use vstd::slice::slice_subrange;

use crate::map::{distinct_keys, lemma_map_of_keys, lemma_map_of_value, map_of};
use crate::markup::{lower_case, lowered, CellView};
use crate::tab_name::{
    cell_text, decode_tab_name, decoded, plain_key, tab_entries, tab_names_carry_id_and_texts,
    written_all, SUPER_TAB_ID_KEY,
};
use crate::text::{
    all_digits, begins_with, chars_of, decimal, decimal_string, digit_value, fields, is_white,
    joined, lemma_cut_at, lemma_decimal, lemma_trimmed_same, number, number_reads_decimal,
    parse_number, pieces, put_between, same_chars, same_text, spells, split, string_of, string_view,
    strip_prefix, texts_are_cut_where_they_were_joined, trim, trimmed,
    trimming_twice_is_trimming_once,
};

verus! {

// ---------------------------------------------------------------------------------------
// Settings
// ---------------------------------------------------------------------------------------

/// A setting that says yes.
pub open spec fn says_yes(value: Seq<char>) -> bool {
    let word = lowered(trimmed(value));
    word == "1"@ || word == "true"@ || word == "yes"@ || word == "on"@
}

/// Whether a setting says yes.
pub fn parse_bool_config(value: &str) -> (r: bool)
    ensures
        r == says_yes(value@),
{
    let chars = chars_of(value);
    let word = lower_case(trim(chars.as_slice()));
    let word = word.as_slice();
    spells(word, "1") || spells(word, "true") || spells(word, "yes") || spells(word, "on")
}

/// A character that can stand in the name of a folder for a session.
pub open spec fn plain_in_key(c: char) -> bool {
    'a' <= c <= 'z' || 'A' <= c <= 'Z' || '0' <= c <= '9' || c == '-' || c == '_' || c == '.'
}

/// The name of the folder for a session.
pub open spec fn sanitized(name: Seq<char>) -> Seq<char> {
    name.map_values(
        |c: char|
            if plain_in_key(c) {
                c
            } else {
                '_'
            },
    )
}

/// The name of the folder for a session.
pub fn sanitize_session_key(session_name: &str) -> (r: String)
    ensures
        r@ == sanitized(session_name@),
{
    let chars = chars_of(session_name);
    let mut key = String::new();
    let mut i: usize = 0;
    assert(key@ =~= sanitized(session_name@.take(0)));
    while i < chars.len()
        invariant
            i <= chars.len(),
            chars@ == session_name@,
            key@ == sanitized(session_name@.take(i as int)),
        decreases chars.len() - i,
    {
        let c = chars[i];
        let kept = ('a' <= c && c <= 'z') || ('A' <= c && c <= 'Z') || ('0' <= c && c <= '9')
            || c == '-' || c == '_' || c == '.';
        key.push(
            if kept {
                c
            } else {
                '_'
            },
        );
        i = i + 1;
        assert(key@ =~= sanitized(session_name@.take(i as int)));
    }
    assert(session_name@.take(session_name@.len() as int) =~= session_name@);
    key
}

// ---------------------------------------------------------------------------------------
// The shared folder
// ---------------------------------------------------------------------------------------

/// A path followed by another, which replaces it where that begins at the root.
pub open spec fn path_joined(base: Seq<char>, rest: Seq<char>) -> Seq<char> {
    if begins_with(rest, "/"@) {
        rest
    } else if base.len() == 0 || base.last() == '/' {
        base + rest
    } else {
        base + "/"@ + rest
    }
}

fn join_path(base: &str, rest: &str) -> (r: String)
    ensures
        r@ == path_joined(base@, rest@),
{
    let head = chars_of(base);
    let tail = chars_of(rest);
    if strip_prefix(tail.as_slice(), "/").is_some() {
        return rest.to_owned();
    }
    let mut r = base.to_owned();
    let n: usize = head.len();
    if n > 0 && head[n - 1] != '/' {
        r.append("/");
    }
    r.append(rest);
    r
}

/// A variable of the environment that is set to something.
pub open spec fn set_to_something(value: Option<Seq<char>>) -> bool {
    value is Some && value->0.len() > 0
}

fn is_set(value: &Option<String>) -> (r: bool)
    ensures
        r == set_to_something(string_view(*value)),
{
    match value {
        Some(value) => !value.as_str().is_empty(),
        None => false,
    }
}

/// A path with the home folder in place of a leading `~`.
pub open spec fn home_expanded(path: Seq<char>, home: Option<Seq<char>>) -> Result<
    Seq<char>,
    Seq<char>,
> {
    if path == "~"@ {
        if set_to_something(home) {
            Ok(home->0)
        } else {
            Err("cannot expand ~ because HOME is unavailable"@)
        }
    } else if begins_with(path, "~/"@) {
        if set_to_something(home) {
            Ok(path_joined(home->0, path.skip(2)))
        } else {
            Err("cannot expand ~/ because HOME is unavailable"@)
        }
    } else {
        Ok(path)
    }
}

/// The result of looking for a path, with the texts in it.
pub open spec fn path_view(r: Result<String, String>) -> Result<Seq<char>, Seq<char>> {
    match r {
        Ok(path) => Ok(path@),
        Err(message) => Err(message@),
    }
}

fn expand_home_path(path: &[char], home: &Option<String>) -> (r: Result<String, String>)
    ensures
        path_view(r) == home_expanded(path@, string_view(*home)),
{
    if spells(path, "~") {
        if is_set(home) {
            if let Some(home) = home {
                return Ok(home.clone());
            }
        }
        return Err("cannot expand ~ because HOME is unavailable".to_owned());
    }
    proof {
        reveal_strlit("~/");
    }
    if let Some(rest) = strip_prefix(path, "~/") {
        if is_set(home) {
            if let Some(home) = home {
                return Ok(join_path(home.as_str(), string_of(rest).as_str()));
            }
        }
        return Err("cannot expand ~/ because HOME is unavailable".to_owned());
    }
    Ok(string_of(path))
}

/// The folder that is shared where none is configured.
pub open spec fn default_folder(
    xdg_data_home: Option<Seq<char>>,
    home: Option<Seq<char>>,
) -> Result<Seq<char>, Seq<char>> {
    if set_to_something(xdg_data_home) {
        Ok(xdg_data_home->0)
    } else if set_to_something(home) {
        Ok(path_joined(path_joined(home->0, ".local"@), "share"@))
    } else {
        Err("state_host_folder is required when HOME is unavailable"@)
    }
}

fn default_shared_state_host_folder(xdg_data_home: &Option<String>, home: &Option<String>) -> (r:
    Result<String, String>)
    ensures
        path_view(r) == default_folder(string_view(*xdg_data_home), string_view(*home)),
{
    if is_set(xdg_data_home) {
        if let Some(folder) = xdg_data_home {
            return Ok(folder.clone());
        }
    }
    if is_set(home) {
        if let Some(home) = home {
            return Ok(join_path(join_path(home.as_str(), ".local").as_str(), "share"));
        }
    }
    Err("state_host_folder is required when HOME is unavailable".to_owned())
}

/// The folder that is shared: the configured one, or the default. It begins at the root.
pub open spec fn shared_folder(
    configured: Option<Seq<char>>,
    xdg_data_home: Option<Seq<char>>,
    home: Option<Seq<char>>,
) -> Result<Seq<char>, Seq<char>> {
    let found = if configured is Some && trimmed(configured->0).len() > 0 {
        home_expanded(trimmed(configured->0), home)
    } else {
        default_folder(xdg_data_home, home)
    };
    match found {
        Err(message) => Err(message),
        Ok(path) => if begins_with(path, "/"@) {
            Ok(path)
        } else {
            Err("state_host_folder must be an absolute path, got "@ + path)
        },
    }
}

/// Looks for the folder that is shared.
pub fn resolve_shared_state_host_folder(
    configured: Option<&String>,
    xdg_data_home: &Option<String>,
    home: &Option<String>,
) -> (r: Result<String, String>)
    ensures
        path_view(r) == shared_folder(
            match configured {
                Some(text) => Some(text@),
                None => None,
            },
            string_view(*xdg_data_home),
            string_view(*home),
        ),
{
    let chars = match configured {
        Some(text) => chars_of(text.as_str()),
        None => Vec::new(),
    };
    let wanted = trim(chars.as_slice());
    let found = if configured.is_some() && wanted.len() > 0 {
        expand_home_path(wanted, home)
    } else {
        default_shared_state_host_folder(xdg_data_home, home)
    };
    match found {
        Err(message) => Err(message),
        Ok(path) => if strip_prefix(chars_of(path.as_str()).as_slice(), "/").is_some() {
            Ok(path)
        } else {
            let mut message = "state_host_folder must be an absolute path, got ".to_owned();
            message.append(path.as_str());
            Err(message)
        },
    }
}

// ---------------------------------------------------------------------------------------
// Minted ids
// ---------------------------------------------------------------------------------------

/// The id with the given number that a plugin mints.
pub open spec fn minted_id(plugin_id: u32, n: u64) -> Seq<char> {
    "st-"@ + decimal(plugin_id as nat) + "-"@ + decimal(n as nat)
}

/// The id with the given number that a plugin mints.
pub fn format_minted_id(plugin_id: u32, n: u64) -> (r: String)
    ensures
        r@ == minted_id(plugin_id, n),
{
    let mut id = "st-".to_owned();
    id.append(decimal_string(plugin_id as u64).as_str());
    id.append("-");
    id.append(decimal_string(n).as_str());
    id
}

/// The plugin that minted an id, and the number it gave it.
pub open spec fn minted_parts(id: Seq<char>) -> Option<(u32, u64)> {
    let parts = fields(id.skip(3), '-');
    if begins_with(id, "st-"@) && parts.len() == 2 {
        match (number(parts[0], 10, u32::MAX as int), number(parts[1], 10, u64::MAX as int)) {
            (Some(plugin_id), Some(n)) => Some((plugin_id as u32, n as u64)),
            _ => None,
        }
    } else {
        None
    }
}

/// Reads the plugin that minted an id, and the number it gave it.
pub fn parse_minted_super_tab_id(tab_id: &str) -> (r: Option<(u32, u64)>)
    ensures
        r == minted_parts(tab_id@),
{
    let chars = chars_of(tab_id);
    proof {
        reveal_strlit("st-");
    }
    let suffix = match strip_prefix(chars.as_slice(), "st-") {
        Some(suffix) => suffix,
        None => {
            return None;
        },
    };
    let parts = split(suffix, '-');
    assert(pieces(parts@).len() == parts.len());
    if parts.len() != 2 {
        return None;
    }
    assert(pieces(parts@)[0] == parts@[0]@);
    assert(pieces(parts@)[1] == parts@[1]@);
    match (parse_number(parts[0], 10, u32::MAX as u64), parse_number(parts[1], 10, u64::MAX)) {
        (Some(plugin_id), Some(n)) => Some((plugin_id as u32, n)),
        _ => None,
    }
}

/// Digits hold no hyphen.
proof fn lemma_decimal_no_hyphen(n: nat)
    ensures
        forall|i: int| 0 <= i < decimal(n).len() ==> #[trigger] decimal(n)[i] != '-',
{
    lemma_decimal(n);
    assert forall|i: int| 0 <= i < decimal(n).len() implies #[trigger] decimal(n)[i] != '-' by {
        assert(digit_value(decimal(n)[i], 10) is Some);
    }
}

/// An id is read back as the plugin that minted it and the number it gave it.
pub proof fn minted_ids_are_read_back(plugin_id: u32, n: u64)
    ensures
        minted_parts(minted_id(plugin_id, n)) == Some((plugin_id, n)),
{
    let id = minted_id(plugin_id, n);
    let a = decimal(plugin_id as nat);
    let b = decimal(n as nat);
    reveal_strlit("st-");
    reveal_strlit("-");
    let suffix = id.skip(3);
    assert(suffix =~= a + seq!['-'] + b);
    assert(id.take(3) =~= "st-"@);
    lemma_decimal_no_hyphen(plugin_id as nat);
    lemma_decimal_no_hyphen(n as nat);
    assert forall|i: int| 0 <= i < a.len() implies suffix[i] != '-' by {
        assert(suffix[i] == a[i]);
    }
    lemma_cut_at(suffix, '-', a.len() as int);
    assert(suffix.take(a.len() as int) =~= a);
    assert(suffix.skip(a.len() as int + 1) =~= b);
    lemma_cut_at(b, '-', b.len() as int);
    assert(fields(b, '-') =~= seq![b]);
    assert(fields(suffix, '-') =~= seq![a, b]);
    number_reads_decimal(plugin_id as nat, u32::MAX as int);
    number_reads_decimal(n as nat, u64::MAX as int);
}

// ---------------------------------------------------------------------------------------
// Tab names without an id
// ---------------------------------------------------------------------------------------

/// A name that the terminal gives to tabs: `Tab #` and a number.
pub open spec fn default_name(name: Seq<char>) -> bool {
    let rest = trimmed(name).skip(5);
    &&& begins_with(trimmed(name), "Tab #"@)
    &&& rest.len() > 0
    &&& forall|i: int| 0 <= i < rest.len() ==> '0' <= #[trigger] rest[i] <= '9'
}

fn default_name_chars(name: &[char]) -> (r: bool)
    ensures
        r == default_name(name@),
{
    proof {
        reveal_strlit("Tab #");
    }
    let rest = match strip_prefix(trim(name), "Tab #") {
        Some(rest) => rest,
        None => {
            return false;
        },
    };
    if rest.len() == 0 {
        return false;
    }
    let mut i: usize = 0;
    while i < rest.len()
        invariant
            i <= rest.len(),
            rest@ == trimmed(name@).skip(5),
            forall|j: int| 0 <= j < i ==> '0' <= #[trigger] rest@[j] <= '9',
        decreases rest.len() - i,
    {
        if rest[i] < '0' || '9' < rest[i] {
            assert(!('0' <= rest@[i as int] <= '9'));
            return false;
        }
        i = i + 1;
    }
    true
}

/// Whether a name is one that the terminal gives to tabs.
pub fn is_default_zellij_tab_name(name: &str) -> (r: bool)
    ensures
        r == default_name(name@),
{
    default_name_chars(chars_of(name).as_slice())
}

/// What a tab is to the list.
#[derive(Debug, Clone, PartialEq, Eq)]
pub enum IdentityState {
    Managed,
    Pending { claim_key: String },
    UnmanagedManual,
    UnmanagedDefault,
}

/// A tab whose name nobody chose: it is empty, one that the terminal gives, or one that
/// carries an id and no text.
pub open spec fn nobodys_name(name: Seq<char>) -> bool {
    ||| trimmed(name).len() == 0
    ||| default_name(trimmed(name))
    ||| decoded(name) is Some && decoded(name)->0.contains_key(SUPER_TAB_ID_KEY@) && forall|
        k: Seq<char>,
    | #[trigger]
        decoded(name)->0.contains_key(k) && k != SUPER_TAB_ID_KEY@ ==> decoded(name)->0[k].len()
            == 0
}

/// What a tab without an id is: named by its user or by nobody.
pub open spec fn unmanaged_identity(name: Seq<char>) -> IdentityState {
    if nobodys_name(name) {
        IdentityState::UnmanagedDefault
    } else {
        IdentityState::UnmanagedManual
    }
}

/// What a tab without an id is: named by its user or by nobody.
pub fn unmanaged_identity_for_name(name: &str) -> (r: IdentityState)
    ensures
        r == unmanaged_identity(name@),
{
    let chars = chars_of(name);
    let shown = trim(chars.as_slice());
    if shown.len() == 0 || default_name_chars(shown) {
        return IdentityState::UnmanagedDefault;
    }
    let map = match decode_tab_name(name) {
        Some(map) => map,
        None => {
            return IdentityState::UnmanagedManual;
        },
    };
    if !map.contains_key(SUPER_TAB_ID_KEY) {
        return IdentityState::UnmanagedManual;
    }
    let n: usize = map.len();
    let ghost all = map.listing();
    let mut i: usize = 0;
    while i < n
        invariant
            i <= n,
            n == all.len(),
            all == map.listing(),
            decoded(name@) == Some(map@),
            map@ == map_of(all),
            distinct_keys(all),
            map@.contains_key(SUPER_TAB_ID_KEY@),
            trimmed(name@).len() > 0 && !default_name(trimmed(name@)),
            forall|j: int|
                0 <= j < i ==> (#[trigger] all[j]).0 == SUPER_TAB_ID_KEY@ || all[j].1.len() == 0,
        decreases n - i,
    {
        let id_key = same_text(map.key_at(i).as_str(), SUPER_TAB_ID_KEY);
        if !id_key && !map.value_at(i).as_str().is_empty() {
            proof {
                lemma_map_of_value(all, i as int);
                assert(map@.contains_key(all[i as int].0));
            }
            return IdentityState::UnmanagedManual;
        }
        i = i + 1;
    }
    proof {
        assert forall|k: Seq<char>| #[trigger] map@.contains_key(k) && k
            != SUPER_TAB_ID_KEY@ implies map@[k].len() == 0 by {
            lemma_map_of_keys(all, k);
            let j = choose|j: int| 0 <= j < all.len() && (#[trigger] all[j]).0 == k;
            lemma_map_of_value(all, j);
        }
    }
    IdentityState::UnmanagedDefault
}

// ---------------------------------------------------------------------------------------
// Claim keys
// ---------------------------------------------------------------------------------------

/// The order of ids.
pub open spec fn by_id() -> spec_fn(u32, u32) -> bool {
    |a: u32, b: u32| a <= b
}

/// Ids in ascending order.
fn sort_ids(ids: &Vec<u32>) -> (r: Vec<u32>)
    ensures
        r@ == ids@.sort_by(by_id()),
{
    let mut r: Vec<u32> = Vec::new();
    let mut i: usize = 0;
    proof {
        assert(ids@.take(0) =~= Seq::<u32>::empty());
        assert(r@ =~= Seq::<u32>::empty());
    }
    while i < ids.len()
        invariant
            i <= ids.len(),
            sorted_by(r@, by_id()),
            r@.to_multiset() == ids@.take(i as int).to_multiset(),
        decreases ids.len() - i,
    {
        let id: u32 = ids[i];
        let ghost before = r@;
        let mut k: usize = 0;
        while k < r.len() && r[k] < id
            invariant
                k <= r.len(),
                r@ == before,
                forall|j: int| 0 <= j < k ==> before[j] < id,
            decreases r.len() - k,
        {
            k = k + 1;
        }
        r.insert(k, id);
        i = i + 1;
        proof {
            let after = before.insert(k as int, id);
            assert forall|a: int, b: int| 0 <= a < b < after.len() implies #[trigger] by_id()(
                after[a],
                after[b],
            ) by {
                let x = if a < k {
                    a
                } else {
                    a - 1
                };
                let y = if b < k {
                    b
                } else {
                    b - 1
                };
                if a != k && b != k {
                    assert(by_id()(before[x], before[y]));
                } else if a == k {
                    assert(k < before.len());
                    if y > k {
                        assert(by_id()(before[k as int], before[y]));
                    }
                }
            }
            after.to_multiset_ensures();
            assert(after.remove(k as int) =~= before);
            assert(after[k as int] == id);
            assert(after.contains(id));
            assert(after.to_multiset() =~= before.to_multiset().insert(id));
            let t = ids@.take(i - 1);
            t.to_multiset_ensures();
            assert(ids@.take(i as int) =~= t.push(id));
        }
    }
    proof {
        assert(ids@.take(ids@.len() as int) =~= ids@);
        assert(total_ordering(by_id()));
        ids@.lemma_sort_by_ensures(by_id());
        lemma_sorted_unique(r@, ids@.sort_by(by_id()), by_id());
    }
    r
}

/// Ids with underscores between them.
pub open spec fn ids_joined(ids: Seq<u32>) -> Seq<char>
    decreases ids.len(),
{
    if ids.len() == 0 {
        Seq::empty()
    } else if ids.len() == 1 {
        decimal(ids[0] as nat)
    } else {
        ids_joined(ids.drop_last()) + "_"@ + decimal(ids.last() as nat)
    }
}

/// The key under which the id of a tab is claimed: its terminal panes, in order, or its
/// position where none is known.
pub open spec fn claim_key(ids: Seq<u32>, position: usize) -> Seq<char> {
    if ids.len() == 0 {
        "position-"@ + decimal(position as nat)
    } else {
        "panes-"@ + ids_joined(ids.sort_by(by_id()))
    }
}

/// The key under which the id of a tab is claimed.
pub fn claim_key_for_panes(ids: &Vec<u32>, position: usize) -> (r: String)
    ensures
        r@ == claim_key(ids@, position),
{
    if ids.len() == 0 {
        let mut key = "position-".to_owned();
        key.append(decimal_string(position as u64).as_str());
        return key;
    }
    let ids = sort_ids(ids);
    let mut list = String::new();
    let mut i: usize = 0;
    assert(list@ =~= ids_joined(ids@.take(0)));
    while i < ids.len()
        invariant
            i <= ids.len(),
            list@ == ids_joined(ids@.take(i as int)),
        decreases ids.len() - i,
    {
        if i > 0 {
            list.append("_");
        }
        let ghost before = list@;
        list.append(decimal_string(ids[i] as u64).as_str());
        i = i + 1;
        proof {
            let t = ids@.take(i as int);
            assert(t.drop_last() =~= ids@.take(i - 1));
            assert(t.last() == ids@[i - 1]);
            if i == 1 {
                assert(before =~= Seq::<char>::empty());
                assert(list@ =~= decimal(t[0] as nat));
            }
        }
    }
    assert(ids@.take(ids@.len() as int) =~= ids@);
    let mut key = "panes-".to_owned();
    key.append(list.as_str());
    key
}

/// The key of a tab follows its terminal panes: it is the same wherever the tab stands and in
/// whatever order its panes are listed.
pub proof fn claim_keys_follow_the_panes(a: Seq<u32>, b: Seq<u32>, from: usize, to: usize)
    requires
        a.len() > 0,
        a.to_multiset() == b.to_multiset(),
    ensures
        claim_key(a, from) == claim_key(b, to),
{
    a.to_multiset_ensures();
    b.to_multiset_ensures();
    assert(total_ordering(by_id()));
    a.lemma_sort_by_ensures(by_id());
    b.lemma_sort_by_ensures(by_id());
    lemma_sorted_unique(a.sort_by(by_id()), b.sort_by(by_id()), by_id());
}

// ---------------------------------------------------------------------------------------
// File names
// ---------------------------------------------------------------------------------------

/// The file that keeps the row of a tab.
pub fn tab_file_name(key: &str) -> (r: String)
    ensures
        r@ == "tab-"@ + key@ + ".json"@,
{
    joined("tab-", chars_of(key).as_slice(), ".json")
}

/// The file that keeps a claim on an id.
pub fn pending_file_name(key: &str) -> (r: String)
    ensures
        r@ == "pending-"@ + key@ + ".json"@,
{
    joined("pending-", chars_of(key).as_slice(), ".json")
}

/// What stands between a beginning and an ending.
pub open spec fn between(name: Seq<char>, before: Seq<char>, after: Seq<char>) -> Option<Seq<char>> {
    if begins_with(name, before) && name.len() >= before.len() + after.len() && name.skip(
        name.len() - after.len(),
    ) == after {
        Some(name.subrange(before.len() as int, name.len() - after.len()))
    } else {
        None
    }
}

fn strip_both(name: &str, before: &str, after: &str) -> (r: Option<String>)
    ensures
        string_view(r) == between(name@, before@, after@),
{
    let chars = chars_of(name);
    let ending = chars_of(after);
    let rest = match strip_prefix(chars.as_slice(), before) {
        Some(rest) => rest,
        None => {
            return None;
        },
    };
    if rest.len() < ending.len() {
        return None;
    }
    let k: usize = rest.len() - ending.len();
    let tail = slice_subrange(rest, k, rest.len());
    assert(tail@ =~= name@.skip(name@.len() - after@.len()));
    if !same_chars(tail, ending.as_slice()) {
        return None;
    }
    let key = slice_subrange(rest, 0, k);
    assert(key@ =~= name@.subrange(before@.len() as int, name@.len() - after@.len()));
    Some(string_of(key))
}

/// The key of the row that a file keeps, where it keeps one.
pub fn tab_file_key(name: &str) -> (r: Option<String>)
    ensures
        string_view(r) == between(name@, "tab-"@, ".json"@),
{
    strip_both(name, "tab-", ".json")
}

/// The key of the claim that a file keeps, where it keeps one.
pub fn pending_file_key(name: &str) -> (r: Option<String>)
    ensures
        string_view(r) == between(name@, "pending-"@, ".json"@),
{
    strip_both(name, "pending-", ".json")
}

/// The key of a file is the one it was named for.
pub proof fn file_names_give_their_keys_back(key: Seq<char>, before: Seq<char>, after: Seq<char>)
    ensures
        between(before + key + after, before, after) == Some(key),
{
    let name = before + key + after;
    assert(name.take(before.len() as int) =~= before);
    assert(name.skip(name.len() - after.len()) =~= after);
    assert(name.subrange(before.len() as int, name.len() - after.len()) =~= key);
}

// ---------------------------------------------------------------------------------------
// Laws
// ---------------------------------------------------------------------------------------

/// A name as part of a key is as long as it was, holds only ASCII letters, digits, hyphens,
/// underscores and dots, and keeps those where they were.
pub proof fn keys_hold_plain_characters_only(name: Seq<char>)
    ensures
        sanitized(name).len() == name.len(),
        forall|i: int|
            0 <= i < name.len() ==> {
                let c = #[trigger] sanitized(name)[i];
                let plain = |c: char|
                    'a' <= c <= 'z' || 'A' <= c <= 'Z' || '0' <= c <= '9' || c == '-' || c == '_'
                        || c == '.';
                &&& plain(c)
                &&& plain(name[i]) ==> c == name[i]
                &&& !plain(name[i]) ==> c == '_'
            },
        sanitized(sanitized(name)) == sanitized(name),
{
    assert(sanitized(sanitized(name)) =~= sanitized(name));
}

/// The folder that is shared begins at the root, whatever was configured.
pub proof fn the_shared_folder_begins_at_the_root(
    configured: Option<Seq<char>>,
    xdg_data_home: Option<Seq<char>>,
    home: Option<Seq<char>>,
)
    ensures
        shared_folder(configured, xdg_data_home, home) matches Ok(path) ==> path.len() > 0
            && path[0] == '/',
{
    reveal_strlit("/");
    if let Ok(path) = shared_folder(configured, xdg_data_home, home) {
        assert(path.take(1)[0] == path[0]);
    }
}

/// A folder that is configured from the root on is the one that is shared, without the blanks
/// around it, whatever the environment says. One that begins neither at the root nor at the home
/// is refused.
pub proof fn configured_folders_are_shared(
    configured: Seq<char>,
    xdg_data_home: Option<Seq<char>>,
    home: Option<Seq<char>>,
)
    requires
        trimmed(configured).len() > 0,
        trimmed(configured)[0] != '~',
    ensures
        trimmed(configured)[0] == '/' ==> shared_folder(Some(configured), xdg_data_home, home)
            == Ok::<Seq<char>, Seq<char>>(trimmed(configured)),
        trimmed(configured)[0] != '/' ==> shared_folder(Some(configured), xdg_data_home, home)
            == Err::<Seq<char>, Seq<char>>(
            "state_host_folder must be an absolute path, got "@ + trimmed(configured),
        ),
{
    let path = trimmed(configured);
    reveal_strlit("/");
    reveal_strlit("~");
    reveal_strlit("~/");
    assert("~"@[0] == '~');
    assert("~/"@[0] == '~');
    if begins_with(path, "~/"@) {
        assert(path.take(2)[0] == path[0]);
    }
    if path[0] == '/' {
        assert(path.take(1) =~= "/"@);
    }
    if begins_with(path, "/"@) {
        assert(path.take(1)[0] == path[0]);
    }
}

/// A folder that is configured from the home on lies below the home, which has to be known and
/// to begin at the root; the home alone is the home itself.
pub proof fn folders_below_the_home_are_shared(
    below: Seq<char>,
    xdg_data_home: Option<Seq<char>>,
    home: Seq<char>,
)
    requires
        home.len() > 0,
        home[0] == '/',
        home.last() != '/',
        below.len() > 0,
        below[0] != '/',
        !is_white(below.last()),
    ensures
        shared_folder(Some("~/"@ + below), xdg_data_home, Some(home)) == Ok::<Seq<char>, Seq<char>>(
            home + "/"@ + below,
        ),
        shared_folder(Some("~"@), xdg_data_home, Some(home)) == Ok::<Seq<char>, Seq<char>>(home),
        shared_folder(Some("~/"@ + below), xdg_data_home, None) is Err,
        shared_folder(Some("~"@), xdg_data_home, None) is Err,
{
    let path = "~/"@ + below;
    reveal_strlit("/");
    reveal_strlit("~");
    reveal_strlit("~/");
    lemma_trimmed_same(path);
    lemma_trimmed_same("~"@);
    assert(path.take(2) =~= "~/"@);
    assert(path.skip(2) =~= below);
    assert(path != "~"@);
    if begins_with(below, "/"@) {
        assert(below.take(1)[0] == below[0]);
    }
    let whole = home + "/"@ + below;
    assert(whole.take(1) =~= "/"@);
    assert(home.take(1) =~= "/"@);
}

/// Without a configured folder the one of the environment is shared: the data home where it is
/// set to anything, and else `.local/share` below the home. Without either there is none.
pub proof fn folders_of_the_environment_are_shared(
    blank: Seq<char>,
    xdg_data_home: Seq<char>,
    home: Seq<char>,
)
    requires
        trimmed(blank).len() == 0,
        xdg_data_home.len() > 0,
        xdg_data_home[0] == '/',
        home.len() > 0,
        home[0] == '/',
        home.last() != '/',
    ensures
        forall|configured: Option<Seq<char>>, other: Option<Seq<char>>|
            configured is None || configured == Some(blank) ==> #[trigger] shared_folder(
                configured,
                Some(xdg_data_home),
                other,
            ) == Ok::<Seq<char>, Seq<char>>(xdg_data_home),
        forall|configured: Option<Seq<char>>, unset: Option<Seq<char>>|
            (configured is None || configured == Some(blank)) && (unset is None || unset
                == Some(Seq::<char>::empty())) ==> #[trigger] shared_folder(
                configured,
                unset,
                Some(home),
            ) == Ok::<Seq<char>, Seq<char>>(home + "/.local/share"@),
        shared_folder(None, None, None) is Err,
{
    reveal_strlit("/");
    reveal_strlit(".local");
    reveal_strlit("share");
    reveal_strlit("/.local/share");
    assert(xdg_data_home.take(1) =~= "/"@);
    if begins_with(".local"@, "/"@) {
        assert(".local"@.take(1)[0] == '.');
    }
    if begins_with("share"@, "/"@) {
        assert("share"@.take(1)[0] == 's');
    }
    let local = path_joined(home, ".local"@);
    assert(local =~= home + "/"@ + ".local"@);
    assert(local.last() == 'l');
    let whole = path_joined(local, "share"@);
    assert(whole =~= home + "/.local/share"@);
    assert(whole.take(1) =~= "/"@);
}

/// A name is one that the terminal gave just if, without the blanks around it, it is `Tab #` and
/// digits.
pub proof fn default_names_are_numbered(name: Seq<char>)
    ensures
        default_name(name) <==> exists|digits: Seq<char>|
            {
                &&& trimmed(name) == "Tab #"@ + digits
                &&& digits.len() > 0
                &&& #[trigger] all_digits(digits, 10)
            },
{
    reveal_strlit("Tab #");
    let t = trimmed(name);
    if default_name(name) {
        let digits = t.skip(5);
        assert(t =~= t.take(5) + digits);
        assert(all_digits(digits, 10));
    }
    if exists|digits: Seq<char>|
        {
            &&& t == "Tab #"@ + digits
            &&& digits.len() > 0
            &&& #[trigger] all_digits(digits, 10)
        } {
        let digits = choose|digits: Seq<char>|
            {
                &&& t == "Tab #"@ + digits
                &&& digits.len() > 0
                &&& #[trigger] all_digits(digits, 10)
            };
        assert(t.take(5) =~= "Tab #"@);
        assert(t.skip(5) =~= digits);
        assert forall|i: int| 0 <= i < digits.len() implies '0' <= #[trigger] digits[i] <= '9' by {
            assert(digit_value(digits[i], 10) is Some);
        }
    }
}

/// The numbers of panes as texts.
spec fn id_texts(ids: Seq<u32>) -> Seq<Seq<char>> {
    ids.map_values(|id: u32| decimal(id as nat))
}

proof fn lemma_put_behind(texts: Seq<Seq<char>>, last: Seq<char>, c: char)
    requires
        texts.len() > 0,
    ensures
        put_between(texts.push(last), c) == put_between(texts, c).push(c) + last,
    decreases texts.len(),
{
    let all = texts.push(last);
    if texts.len() == 1 {
        reveal_with_fuel(put_between, 2);
        assert(all.drop_first() =~= seq![last]);
        assert(put_between(all.drop_first(), c) == last);
    } else {
        lemma_put_behind(texts.drop_first(), last, c);
        assert(all.drop_first() =~= texts.drop_first().push(last));
        assert(put_between(all, c) =~= put_between(texts, c).push(c) + last);
    }
}

proof fn lemma_ids_joined(ids: Seq<u32>)
    requires
        ids.len() > 0,
    ensures
        fields(ids_joined(ids), '_') == id_texts(ids),
        ids_joined(ids) == put_between(id_texts(ids), '_'),
    decreases ids.len(),
{
    let texts = id_texts(ids);
    assert forall|i: int| 0 <= i < texts.len() implies !(#[trigger] texts[i]).contains('_') by {
        lemma_decimal(ids[i] as nat);
        let text = texts[i];
        if text.contains('_') {
            let k = choose|k: int| 0 <= k < text.len() && text[k] == '_';
            assert(digit_value(text[k], 10) is Some);
        }
    }
    texts_are_cut_where_they_were_joined(texts, '_');
    if ids.len() > 1 {
        let front = ids.drop_last();
        lemma_ids_joined(front);
        lemma_put_behind(id_texts(front), decimal(ids.last() as nat), '_');
        assert(texts =~= id_texts(front).push(decimal(ids.last() as nat)));
        reveal_strlit("_");
        assert(ids_joined(ids) =~= put_between(id_texts(front), '_').push('_') + decimal(
            ids.last() as nat,
        ));
    }
}

/// Two tabs have the same claim key just if they hold the same terminal panes, or hold none and
/// stand at the same position: the claim of one tab is never taken for that of another.
pub proof fn claim_keys_tell_tabs_apart(a: Seq<u32>, b: Seq<u32>, from: usize, to: usize)
    ensures
        claim_key(a, from) == claim_key(b, to) <==> (a.to_multiset() == b.to_multiset() && (a.len()
            > 0 || from == to)),
{
    a.to_multiset_ensures();
    b.to_multiset_ensures();
    reveal_strlit("position-");
    reveal_strlit("panes-");
    let x = claim_key(a, from);
    let y = claim_key(b, to);
    if a.len() == 0 {
        assert(x[1] == 'o');
        if b.len() == 0 {
            assert(a =~= b);
            assert(x.skip(9) =~= decimal(from as nat));
            assert(y.skip(9) =~= decimal(to as nat));
            number_reads_decimal(from as nat, usize::MAX as int);
            number_reads_decimal(to as nat, usize::MAX as int);
        } else {
            assert(y[1] == 'a');
            assert(a.to_multiset().len() != b.to_multiset().len());
        }
    } else {
        assert(x[1] == 'a');
        if b.len() == 0 {
            assert(y[1] == 'o');
            assert(a.to_multiset().len() != b.to_multiset().len());
        } else {
            assert(total_ordering(by_id()));
            a.lemma_sort_by_ensures(by_id());
            b.lemma_sort_by_ensures(by_id());
            let s = a.sort_by(by_id());
            let t = b.sort_by(by_id());
            s.to_multiset_ensures();
            t.to_multiset_ensures();
            lemma_ids_joined(s);
            lemma_ids_joined(t);
            if x == y {
                assert(x.skip(6) =~= ids_joined(s));
                assert(y.skip(6) =~= ids_joined(t));
                assert(id_texts(s) == id_texts(t));
                assert(s.len() == id_texts(s).len() && t.len() == id_texts(t).len());
                assert forall|i: int| 0 <= i < s.len() implies s[i] == t[i] by {
                    assert(id_texts(s)[i] == id_texts(t)[i]);
                    number_reads_decimal(s[i] as nat, u32::MAX as int);
                    number_reads_decimal(t[i] as nat, u32::MAX as int);
                }
                assert(s =~= t);
            }
            if a.to_multiset() == b.to_multiset() {
                claim_keys_follow_the_panes(a, b, from, to);
            }
        }
    }
}

/// A name that holds an id and nothing else is nobody's, like one that is blank or that the
/// terminal gave; a name that carries a text for any column is somebody's, unless it is one of
/// those. A name that can be read as none of these is one that its user chose.
pub proof fn names_without_a_text_are_nobodys(
    names: Seq<Seq<char>>,
    cells: Seq<Option<CellView>>,
    id: Seq<char>,
    chosen: Seq<char>,
)
    requires
        forall|i: int|
            0 <= i < names.len() ==> plain_key(#[trigger] names[i]) && names[i] != SUPER_TAB_ID_KEY@,
        names.no_duplicates(),
        id.len() > 0,
    ensures
        ({
            let name = written_all(tab_entries(names, cells, Some(id)));
            let blank = trimmed(name).len() == 0 || default_name(trimmed(name));
            let texts = exists|i: int| 0 <= i < names.len() && #[trigger] cell_text(cells, i).len() > 0;
            nobodys_name(name) <==> blank || !texts
        }),
        decoded(chosen) is None && trimmed(chosen).len() > 0 && !default_name(chosen)
            ==> !nobodys_name(chosen),
        default_name(chosen) || trimmed(chosen).len() == 0 ==> nobodys_name(chosen),
{
    let name = written_all(tab_entries(names, cells, Some(id)));
    tab_names_carry_id_and_texts(names, cells, Some(id));
    trimming_twice_is_trimming_once(chosen);
    let map = decoded(name)->0;
    if exists|i: int| 0 <= i < names.len() && #[trigger] cell_text(cells, i).len() > 0 {
        let i = choose|i: int| 0 <= i < names.len() && #[trigger] cell_text(cells, i).len() > 0;
        assert(map.contains_key(names[i]));
    } else {
        assert forall|k: Seq<char>| #[trigger] map.contains_key(k) && k
            != SUPER_TAB_ID_KEY@ implies map[k].len() == 0 by {
            let i = choose|i: int| 0 <= i < names.len() && names[i] == k;
            assert(cell_text(cells, i).len() == 0);
            assert(!map.contains_key(names[i]));
        }
    }
}

} // verus!
