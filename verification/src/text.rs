//! Character-level text: trimming, cutting, numbers, joining and escaping.
//!
//! Text is a sequence of characters here; a slice of characters is read in place and a
//! `String` is built where one is handed out.
use vstd::prelude::*;
use vstd::slice::slice_subrange;

verus! {

/// `String::push` appends the given character to the end of the string.
pub assume_specification[ String::push ](s: &mut String, ch: char)
    ensures
        final(s)@ == old(s)@.push(ch),
;

// ---------------------------------------------------------------------------------------
// Strings and characters
// ---------------------------------------------------------------------------------------

/// The characters of a string.
pub fn chars_of(s: &str) -> (r: Vec<char>)
    ensures
        r@ == s@,
{
    let mut r: Vec<char> = Vec::new();
    for c in it: s.chars()
        invariant
            it.seq() == s@,
            r@ == s@.take(it.index()),
    {
        proof {
            assert(s@.take(it.index() + 1) =~= s@.take(it.index()).push(c));
        }
        r.push(c);
    }
    assert(s@.take(s@.len() as int) =~= s@);
    r
}

/// The string with the given characters.
pub fn string_of(s: &[char]) -> (r: String)
    ensures
        r@ == s@,
{
    let mut r = String::new();
    let mut i: usize = 0;
    while i < s.len()
        invariant
            i <= s.len(),
            r@ == s@.take(i as int),
        decreases s.len() - i,
    {
        r.push(s[i]);
        i = i + 1;
        assert(s@.take(i as int) =~= s@.take(i - 1).push(s@[i - 1]));
    }
    assert(s@.take(s@.len() as int) =~= s@);
    r
}

/// Whether two character slices hold the same text.
pub fn same_chars(a: &[char], b: &[char]) -> (r: bool)
    ensures
        r == (a@ == b@),
{
    if a.len() != b.len() {
        return false;
    }
    let mut i: usize = 0;
    while i < a.len()
        invariant
            i <= a.len(),
            a.len() == b.len(),
            forall|j: int| 0 <= j < i ==> a@[j] == b@[j],
        decreases a.len() - i,
    {
        if a[i] != b[i] {
            assert(a@[i as int] != b@[i as int]);
            return false;
        }
        i = i + 1;
    }
    assert(a@ =~= b@);
    true
}

/// Whether a character slice spells `word`.
pub fn spells(s: &[char], word: &str) -> (r: bool)
    ensures
        r == (s@ == word@),
{
    let w = chars_of(word);
    same_chars(s, w.as_slice())
}

/// Whether two strings hold the same text.
pub fn same_text(a: &str, b: &str) -> (r: bool)
    ensures
        r == (a@ == b@),
{
    let x = chars_of(a);
    let y = chars_of(b);
    same_chars(x.as_slice(), y.as_slice())
}

/// A text between two others.
pub fn joined(before: &str, middle: &[char], after: &str) -> (r: String)
    ensures
        r@ == before@ + middle@ + after@,
{
    let mut r = before.to_owned();
    r.append(string_of(middle).as_str());
    r.append(after);
    r
}

/// A result with the text of its error.
pub open spec fn outcome<T>(r: Result<T, String>) -> Result<T, Seq<char>> {
    match r {
        Ok(value) => Ok(value),
        Err(message) => Err(message@),
    }
}

/// The text of an optional string.
pub open spec fn string_view(s: Option<String>) -> Option<Seq<char>> {
    match s {
        Some(s) => Some(s@),
        None => None,
    }
}

/// The view of an optional text.
pub open spec fn text_view(s: Option<&str>) -> Option<Seq<char>> {
    match s {
        Some(s) => Some(s@),
        None => None,
    }
}

/// A copy of an optional string.
pub fn copy_option(s: &Option<String>) -> (r: Option<String>)
    ensures
        string_view(r) == string_view(*s),
{
    match s {
        Some(s) => Some(s.clone()),
        None => None,
    }
}

/// Whether two optional strings agree.
pub fn same_option(a: &Option<String>, b: &Option<String>) -> (r: bool)
    ensures
        r == (string_view(*a) == string_view(*b)),
{
    match (a, b) {
        (Some(a), Some(b)) => same_text(a.as_str(), b.as_str()),
        (None, None) => true,
        _ => false,
    }
}

/// Whether `s` begins with `prefix`.
pub open spec fn begins_with(s: Seq<char>, prefix: Seq<char>) -> bool {
    prefix.len() <= s.len() && s.take(prefix.len() as int) == prefix
}

/// What follows `prefix` in `s`, where `s` begins with it.
pub fn strip_prefix<'a>(s: &'a [char], prefix: &str) -> (r: Option<&'a [char]>)
    ensures
        match r {
            Some(rest) => begins_with(s@, prefix@) && rest@ == s@.skip(prefix@.len() as int),
            None => !begins_with(s@, prefix@),
        },
{
    let p = chars_of(prefix);
    if s.len() < p.len() {
        return None;
    }
    let head = slice_subrange(s, 0, p.len());
    if same_chars(head, p.as_slice()) {
        assert(s@.take(prefix@.len() as int) =~= head@);
        Some(slice_subrange(s, p.len(), s.len()))
    } else {
        assert(s@.take(prefix@.len() as int) =~= head@);
        None
    }
}

// ---------------------------------------------------------------------------------------
// White space
// ---------------------------------------------------------------------------------------

/// The characters with the Unicode `White_Space` property.
pub open spec fn is_white(c: char) -> bool {
    ||| '\u{9}' <= c <= '\u{d}'
    ||| c == ' '
    ||| c == '\u{85}'
    ||| c == '\u{a0}'
    ||| c == '\u{1680}'
    ||| '\u{2000}' <= c <= '\u{200a}'
    ||| c == '\u{2028}'
    ||| c == '\u{2029}'
    ||| c == '\u{202f}'
    ||| c == '\u{205f}'
    ||| c == '\u{3000}'
}

/// Whether a character has the Unicode `White_Space` property.
pub fn white(c: char) -> (r: bool)
    ensures
        r == is_white(c),
{
    ('\u{9}' <= c && c <= '\u{d}') || c == ' ' || c == '\u{85}' || c == '\u{a0}' || c == '\u{1680}'
        || ('\u{2000}' <= c && c <= '\u{200a}') || c == '\u{2028}' || c == '\u{2029}'
        || c == '\u{202f}' || c == '\u{205f}' || c == '\u{3000}'
}

/// `s` without the white space it begins with.
pub open spec fn trimmed_start(s: Seq<char>) -> Seq<char>
    decreases s.len(),
{
    if s.len() > 0 && is_white(s[0]) {
        trimmed_start(s.drop_first())
    } else {
        s
    }
}

/// `s` without the white space it ends with.
pub open spec fn trimmed_end(s: Seq<char>) -> Seq<char>
    decreases s.len(),
{
    if s.len() > 0 && is_white(s.last()) {
        trimmed_end(s.drop_last())
    } else {
        s
    }
}

/// `s` without white space at either end.
pub open spec fn trimmed(s: Seq<char>) -> Seq<char> {
    trimmed_end(trimmed_start(s))
}

/// Drops the white space that `s` begins with.
pub fn trim_start(s: &[char]) -> (r: &[char])
    ensures
        r@ == trimmed_start(s@),
{
    let mut i: usize = 0;
    assert(s@.skip(0) =~= s@);
    while i < s.len() && white(s[i])
        invariant
            i <= s.len(),
            trimmed_start(s@) == trimmed_start(s@.skip(i as int)),
        decreases s.len() - i,
    {
        assert(s@.skip(i as int).drop_first() =~= s@.skip(i + 1));
        i = i + 1;
    }
    slice_subrange(s, i, s.len())
}

/// Drops the white space that `s` ends with.
pub fn trim_end(s: &[char]) -> (r: &[char])
    ensures
        r@ == trimmed_end(s@),
{
    let mut n: usize = s.len();
    assert(s@.take(n as int) =~= s@);
    while n > 0 && white(s[n - 1])
        invariant
            n <= s.len(),
            trimmed_end(s@) == trimmed_end(s@.take(n as int)),
        decreases n,
    {
        assert(s@.take(n as int).drop_last() =~= s@.take(n - 1));
        n = n - 1;
    }
    slice_subrange(s, 0, n)
}

/// Drops white space at both ends of `s`.
pub fn trim(s: &[char]) -> (r: &[char])
    ensures
        r@ == trimmed(s@),
{
    trim_end(trim_start(s))
}

/// Dropping white space does not lengthen a text.
pub proof fn lemma_trimmed_start_shorter(s: Seq<char>)
    ensures
        trimmed_start(s).len() <= s.len(),
    decreases s.len(),
{
    if s.len() > 0 {
        lemma_trimmed_start_shorter(s.drop_first());
    }
}

/// Dropping white space does not lengthen a text.
pub proof fn lemma_trimmed_end_shorter(s: Seq<char>)
    ensures
        trimmed_end(s).len() <= s.len(),
    decreases s.len(),
{
    if s.len() > 0 {
        lemma_trimmed_end_shorter(s.drop_last());
    }
}

/// A text that trimming leaves as it is does not begin or end with white space.
pub proof fn lemma_trimmed_ends(s: Seq<char>)
    requires
        s.len() > 0,
        trimmed(s) == s,
    ensures
        !is_white(s[0]),
        !is_white(s.last()),
{
    lemma_trimmed_end_shorter(trimmed_start(s));
    lemma_trimmed_start_shorter(s);
    if is_white(s[0]) {
        lemma_trimmed_start_shorter(s.drop_first());
    }
    if is_white(s.last()) {
        lemma_trimmed_end_shorter(s.drop_last());
    }
}

/// A text that does not begin or end with white space is left as it is.
pub proof fn lemma_trimmed_same(s: Seq<char>)
    requires
        s.len() > 0,
        !is_white(s[0]),
        !is_white(s.last()),
    ensures
        trimmed(s) == s,
        trimmed_start(s) == s,
{
}

proof fn lemma_trimmed_start_result(s: Seq<char>)
    ensures
        trimmed_start(s).len() > 0 ==> !is_white(trimmed_start(s)[0]),
    decreases s.len(),
{
    if s.len() > 0 && is_white(s[0]) {
        lemma_trimmed_start_result(s.drop_first());
    }
}

proof fn lemma_trimmed_end_result(s: Seq<char>)
    ensures
        trimmed_end(s).len() > 0 ==> trimmed_end(s)[0] == s[0] && !is_white(trimmed_end(s).last()),
    decreases s.len(),
{
    if s.len() > 0 && is_white(s.last()) {
        lemma_trimmed_end_result(s.drop_last());
    }
}

/// Trimming what was trimmed changes nothing.
pub proof fn trimming_twice_is_trimming_once(s: Seq<char>)
    ensures
        trimmed(trimmed(s)) == trimmed(s),
{
    lemma_trimmed_start_result(s);
    lemma_trimmed_end_result(trimmed_start(s));
    if trimmed(s).len() > 0 {
        lemma_trimmed_same(trimmed(s));
    }
}

/// White space alone.
pub open spec fn all_white(s: Seq<char>) -> bool {
    forall|i: int| 0 <= i < s.len() ==> is_white(#[trigger] s[i])
}

proof fn lemma_trimmed_start_at(s: Seq<char>) -> (k: int)
    ensures
        0 <= k <= s.len(),
        trimmed_start(s) == s.skip(k),
        all_white(s.take(k)),
    decreases s.len(),
{
    if s.len() > 0 && is_white(s[0]) {
        let k = lemma_trimmed_start_at(s.drop_first());
        assert(s.drop_first().skip(k) =~= s.skip(k + 1));
        assert forall|i: int| 0 <= i < k + 1 implies is_white(#[trigger] s.take(k + 1)[i]) by {
            if i > 0 {
                assert(s.take(k + 1)[i] == s.drop_first().take(k)[i - 1]);
            }
        }
        k + 1
    } else {
        assert(s.skip(0) =~= s);
        0
    }
}

proof fn lemma_trimmed_end_at(s: Seq<char>) -> (k: int)
    ensures
        0 <= k <= s.len(),
        trimmed_end(s) == s.take(k),
        all_white(s.skip(k)),
    decreases s.len(),
{
    if s.len() > 0 && is_white(s.last()) {
        let k = lemma_trimmed_end_at(s.drop_last());
        assert(s.drop_last().take(k) =~= s.take(k));
        assert forall|i: int| 0 <= i < s.len() - k implies is_white(#[trigger] s.skip(k)[i]) by {
            if i < s.len() - k - 1 {
                assert(s.skip(k)[i] == s.drop_last().skip(k)[i]);
            }
        }
        k
    } else {
        assert(s.take(s.len() as int) =~= s);
        s.len() as int
    }
}

/// Trimming takes off the white space at either end, all of it and nothing else: what is left is
/// a stretch of the text with only white space before it and behind it, and begins and ends with
/// something else, unless nothing is left.
pub proof fn trimming_takes_off_the_blanks_at_the_ends(s: Seq<char>)
    ensures
        exists|from: int, to: int|
            {
                &&& 0 <= from <= to <= s.len()
                &&& trimmed(s) == #[trigger] s.subrange(from, to)
                &&& all_white(s.subrange(0, from))
                &&& all_white(s.subrange(to, s.len() as int))
            },
        trimmed(s).len() > 0 ==> !is_white(trimmed(s)[0]) && !is_white(trimmed(s).last()),
{
    let from = lemma_trimmed_start_at(s);
    let rest = trimmed_start(s);
    let k = lemma_trimmed_end_at(rest);
    let to = from + k;
    lemma_trimmed_start_result(s);
    lemma_trimmed_end_result(rest);
    assert(s.subrange(0, from) =~= s.take(from));
    assert(s.subrange(to, s.len() as int) =~= rest.skip(k));
    assert(trimmed(s) =~= s.subrange(from, to));
}

/// A text in front of another that does not begin with white space, and does not hold any at its
/// end, is left by trimming, and the other loses only what it ends with.
pub proof fn lemma_trimmed_behind(front: Seq<char>, text: Seq<char>)
    requires
        front.len() > 0,
        !is_white(front[0]),
        !is_white(front.last()),
    ensures
        trimmed(front + text) == front + trimmed_end(text),
        trimmed(trimmed_end(text)) == trimmed(text),
    decreases text.len(),
{
    let all = front + text;
    if text.len() > 0 && is_white(text.last()) {
        let less = text.drop_last();
        lemma_trimmed_behind(front, less);
        assert(all.drop_last() =~= front + less);
        assert(trimmed_start(front + less) == front + less);
        assert(text =~= less.push(text.last()));
        lemma_trimmed_pushed(less, text.last());
    } else {
        assert(trimmed_start(all) == all);
        if text.len() == 0 {
            assert(all =~= front);
        } else {
            assert(all.last() == text.last());
        }
    }
}

/// White space around a text is trimmed with what the text begins and ends with.
pub proof fn blanks_around_a_text_are_trimmed(
    before: Seq<char>,
    text: Seq<char>,
    behind: Seq<char>,
)
    requires
        all_white(before),
        all_white(behind),
    ensures
        trimmed(before + text + behind) == trimmed(text),
    decreases before.len() + behind.len(),
{
    let all = before + text + behind;
    if before.len() > 0 {
        assert(is_white(before[0]));
        assert(all.drop_first() =~= before.drop_first() + text + behind);
        assert forall|i: int| 0 <= i < before.drop_first().len() implies is_white(
            #[trigger] before.drop_first()[i],
        ) by {
            assert(is_white(before[i + 1]));
        }
        blanks_around_a_text_are_trimmed(before.drop_first(), text, behind);
    } else if behind.len() > 0 {
        let rest = behind.drop_last();
        assert(is_white(behind.last()));
        assert forall|i: int| 0 <= i < rest.len() implies is_white(#[trigger] rest[i]) by {
            assert(is_white(behind[i]));
        }
        blanks_around_a_text_are_trimmed(before, text, rest);
        assert(all =~= (before + text + rest).push(behind.last()));
        lemma_trimmed_pushed(before + text + rest, behind.last());
    } else {
        assert(all =~= text);
    }
}

proof fn lemma_trimmed_pushed(s: Seq<char>, c: char)
    requires
        is_white(c),
    ensures
        trimmed(s.push(c)) == trimmed(s),
    decreases s.len(),
{
    let all = s.push(c);
    if s.len() > 0 && is_white(s[0]) {
        assert(all.drop_first() =~= s.drop_first().push(c));
        lemma_trimmed_pushed(s.drop_first(), c);
    } else if s.len() == 0 {
        assert(all.drop_first() =~= Seq::<char>::empty());
        reveal_with_fuel(trimmed_start, 2);
        assert(trimmed_start(all) =~= Seq::<char>::empty());
        assert(s =~= Seq::<char>::empty());
    } else {
        assert(all.drop_last() =~= s);
    }
}

// ---------------------------------------------------------------------------------------
// Cutting at a character
// ---------------------------------------------------------------------------------------

/// The position of the first `c` in `s`, or the length of `s` where there is none.
pub open spec fn cut(s: Seq<char>, c: char) -> int
    decreases s.len(),
{
    if s.len() == 0 || s[0] == c {
        0
    } else {
        1 + cut(s.drop_first(), c)
    }
}

/// What [`cut`] is.
pub proof fn lemma_cut(s: Seq<char>, c: char)
    ensures
        0 <= cut(s, c) <= s.len(),
        forall|i: int| 0 <= i < cut(s, c) ==> s[i] != c,
        cut(s, c) < s.len() ==> s[cut(s, c)] == c,
    decreases s.len(),
{
    if s.len() > 0 && s[0] != c {
        lemma_cut(s.drop_first(), c);
        assert forall|i: int| 0 <= i < cut(s, c) implies s[i] != c by {
            if i > 0 {
                assert(s[i] == s.drop_first()[i - 1]);
            }
        }
    }
}

/// The first place where `c` stands is the cut.
pub proof fn lemma_cut_at(s: Seq<char>, c: char, k: int)
    requires
        0 <= k <= s.len(),
        forall|i: int| 0 <= i < k ==> s[i] != c,
        k < s.len() ==> s[k] == c,
    ensures
        cut(s, c) == k,
{
    lemma_cut(s, c);
}

/// The position of the first `c`, or the length of `s`.
pub fn find_char(s: &[char], c: char) -> (r: usize)
    ensures
        r == cut(s@, c),
        r <= s.len(),
{
    let mut i: usize = 0;
    while i < s.len() && s[i] != c
        invariant
            i <= s.len(),
            forall|j: int| 0 <= j < i ==> s@[j] != c,
        decreases s.len() - i,
    {
        i = i + 1;
    }
    proof {
        lemma_cut_at(s@, c, i as int);
    }
    i
}

/// The pieces of `s` between occurrences of `c`.
pub open spec fn fields(s: Seq<char>, c: char) -> Seq<Seq<char>>
    decreases s.len(),
{
    let k = cut(s, c);
    if 0 <= k < s.len() {
        seq![s.take(k)] + fields(s.skip(k + 1), c)
    } else {
        seq![s]
    }
}

/// Texts one behind the other with `c` between them.
pub open spec fn put_between(texts: Seq<Seq<char>>, c: char) -> Seq<char>
    decreases texts.len(),
{
    if texts.len() == 0 {
        Seq::empty()
    } else if texts.len() == 1 {
        texts[0]
    } else {
        texts[0].push(c) + put_between(texts.drop_first(), c)
    }
}

/// A text that was put together with a character between its pieces, which do not hold it, is
/// cut into just these pieces.
pub proof fn texts_are_cut_where_they_were_joined(texts: Seq<Seq<char>>, c: char)
    requires
        texts.len() > 0,
        forall|i: int| 0 <= i < texts.len() ==> !(#[trigger] texts[i]).contains(c),
    ensures
        fields(put_between(texts, c), c) == texts,
    decreases texts.len(),
{
    let s = put_between(texts, c);
    let first = texts[0];
    assert(!first.contains(c));
    assert forall|i: int| 0 <= i < first.len() implies first[i] != c by {
        assert(first.contains(first[i]));
    }
    if texts.len() == 1 {
        lemma_cut_at(s, c, s.len() as int);
        assert(fields(s, c) =~= texts);
    } else {
        let later = texts.drop_first();
        assert forall|i: int| 0 <= i < later.len() implies !(#[trigger] later[i]).contains(c) by {
            assert(later[i] == texts[i + 1]);
        }
        texts_are_cut_where_they_were_joined(later, c);
        let k = first.len() as int;
        assert(s[k] == c);
        lemma_cut_at(s, c, k);
        assert(s.take(k) =~= first);
        assert(s.skip(k + 1) =~= put_between(later, c));
        assert(fields(s, c) =~= texts);
    }
}

/// Cutting a text at a character and putting the pieces together again gives the text, and no
/// piece holds the character.
pub proof fn pieces_make_up_the_text(s: Seq<char>, c: char)
    ensures
        put_between(fields(s, c), c) == s,
        fields(s, c).len() > 0,
        forall|i: int| 0 <= i < fields(s, c).len() ==> !(#[trigger] fields(s, c)[i]).contains(c),
    decreases s.len(),
{
    lemma_cut(s, c);
    let k = cut(s, c);
    let all = fields(s, c);
    if k < s.len() {
        let rest = s.skip(k + 1);
        pieces_make_up_the_text(rest, c);
        assert(all.drop_first() =~= fields(rest, c));
        assert(all[0] == s.take(k));
        assert(put_between(all, c) =~= s);
        assert forall|i: int| 0 <= i < all.len() implies !(#[trigger] all[i]).contains(c) by {
            if i > 0 {
                assert(all[i] == fields(rest, c)[i - 1]);
            }
        }
    } else {
        assert(all =~= seq![s]);
    }
}

/// The characters of each piece.
pub open spec fn pieces(v: Seq<&[char]>) -> Seq<Seq<char>> {
    v.map_values(|p: &[char]| p@)
}

/// Splits `s` at every `c`.
pub fn split<'a>(s: &'a [char], c: char) -> (r: Vec<&'a [char]>)
    ensures
        pieces(r@) == fields(s@, c),
        r@.len() >= 1,
{
    let mut r: Vec<&'a [char]> = Vec::new();
    let mut start: usize = 0;
    assert(s@.skip(0) =~= s@);
    assert(pieces(r@) + fields(s@, c) =~= fields(s@, c));
    loop
        invariant
            start <= s.len(),
            fields(s@, c) == pieces(r@) + fields(s@.skip(start as int), c),
        decreases s.len() - start,
    {
        let rest = slice_subrange(s, start, s.len());
        let k: usize = find_char(rest, c);
        assert(rest@ == s@.skip(start as int));
        if k == rest.len() {
            let ghost before = r@;
            r.push(rest);
            assert(pieces(r@) =~= pieces(before) + seq![rest@]);
            return r;
        }
        let piece = slice_subrange(rest, 0, k);
        let ghost before = r@;
        r.push(piece);
        proof {
            assert(rest@.skip(k + 1) =~= s@.skip(start + k + 1));
            assert(piece@ == rest@.take(k as int));
            assert(pieces(r@) =~= pieces(before) + seq![piece@]);
            assert(pieces(before) + (seq![piece@] + fields(rest@.skip(k + 1), c)) =~= (pieces(
                before,
            ) + seq![piece@]) + fields(rest@.skip(k + 1), c));
        }
        start = start + k + 1;
    }
}

// ---------------------------------------------------------------------------------------
// Numbers
// ---------------------------------------------------------------------------------------

/// The value of a digit in base 10 or 16, if `c` is one.
pub open spec fn digit_value(c: char, radix: int) -> Option<int> {
    if '0' <= c <= '9' {
        Some(c as int - '0' as int)
    } else if radix == 16 && 'a' <= c <= 'f' {
        Some(c as int - 'a' as int + 10)
    } else if radix == 16 && 'A' <= c <= 'F' {
        Some(c as int - 'A' as int + 10)
    } else {
        None
    }
}

/// Whether every character is a digit.
pub open spec fn all_digits(s: Seq<char>, radix: int) -> bool {
    forall|i: int| 0 <= i < s.len() ==> digit_value(#[trigger] s[i], radix) is Some
}

/// The number that a run of digits writes.
pub open spec fn digits_value(s: Seq<char>, radix: int) -> int
    decreases s.len(),
{
    if s.len() == 0 {
        0
    } else {
        digits_value(s.drop_last(), radix) * radix + digit_value(s.last(), radix)->0
    }
}

/// The digits of a number as written: what follows a leading `+`, where there is one.
pub open spec fn unsigned_digits(s: Seq<char>) -> Seq<char> {
    if s.len() > 0 && s[0] == '+' {
        s.skip(1)
    } else {
        s
    }
}

/// The number, at most `max`, that `s` writes: an optional `+` and one or more digits.
pub open spec fn number(s: Seq<char>, radix: int, max: int) -> Option<int> {
    let d = unsigned_digits(s);
    if d.len() > 0 && all_digits(d, radix) && digits_value(d, radix) <= max {
        Some(digits_value(d, radix))
    } else {
        None
    }
}

/// The value of a digit.
pub fn digit_of(c: char, radix: u64) -> (r: Option<u64>)
    requires
        radix == 10 || radix == 16,
    ensures
        match r {
            Some(v) => digit_value(c, radix as int) == Some(v as int) && v < radix,
            None => digit_value(c, radix as int) is None,
        },
{
    if '0' <= c && c <= '9' {
        Some((c as u32 - '0' as u32) as u64)
    } else if radix == 16 && 'a' <= c && c <= 'f' {
        Some((c as u32 - 'a' as u32 + 10) as u64)
    } else if radix == 16 && 'A' <= c && c <= 'F' {
        Some((c as u32 - 'A' as u32 + 10) as u64)
    } else {
        None
    }
}

/// Numbers are not negative, and grow with the digits.
pub proof fn lemma_digits_prefix(s: Seq<char>, radix: int, n: int)
    requires
        radix == 10 || radix == 16,
        all_digits(s, radix),
        0 <= n <= s.len(),
    ensures
        0 <= digits_value(s.take(n), radix) <= digits_value(s, radix),
    decreases s.len(),
{
    if s.len() == 0 {
        assert(s.take(n) =~= s);
    } else {
        assert(all_digits(s.drop_last(), radix)) by {
            assert forall|i: int| 0 <= i < s.drop_last().len() implies digit_value(
                #[trigger] s.drop_last()[i],
                radix,
            ) is Some by {
                assert(s.drop_last()[i] == s[i]);
            }
        }
        assert(digit_value(s[s.len() - 1], radix) is Some);
        if n == s.len() {
            assert(s.take(n) =~= s);
            lemma_digits_prefix(s.drop_last(), radix, 0);
            assert(s.drop_last().take(0) =~= Seq::<char>::empty());
            let v = digits_value(s.drop_last(), radix);
            assert(v * radix >= 0) by (nonlinear_arith)
                requires
                    v >= 0,
                    radix >= 0,
            ;
        } else {
            lemma_digits_prefix(s.drop_last(), radix, n);
            assert(s.drop_last().take(n) =~= s.take(n));
            let v = digits_value(s.drop_last(), radix);
            assert(v * radix >= v) by (nonlinear_arith)
                requires
                    v >= 0,
                    radix >= 1,
            ;
        }
    }
}

/// Reads a number of at most `max` in base 10 or 16.
pub fn parse_number(s: &[char], radix: u64, max: u64) -> (r: Option<u64>)
    requires
        radix == 10 || radix == 16,
    ensures
        match r {
            Some(v) => number(s@, radix as int, max as int) == Some(v as int) && v <= max,
            None => number(s@, radix as int, max as int) is None,
        },
{
    let d: &[char] = if s.len() > 0 && s[0] == '+' {
        slice_subrange(s, 1, s.len())
    } else {
        s
    };
    assert(d@ == unsigned_digits(s@));
    if d.len() == 0 {
        return None;
    }
    let mut value: u128 = 0;
    let mut i: usize = 0;
    assert(d@.take(0) =~= Seq::<char>::empty());
    while i < d.len()
        invariant
            i <= d.len(),
            d@ == unsigned_digits(s@),
            radix == 10 || radix == 16,
            value <= max,
            value == digits_value(d@.take(i as int), radix as int),
            all_digits(d@.take(i as int), radix as int),
        decreases d.len() - i,
    {
        match digit_of(d[i], radix) {
            None => {
                assert(digit_value(d@[i as int], radix as int) is None);
                return None;
            },
            Some(v) => {
                proof {
                    let t = d@.take(i + 1);
                    assert(t.drop_last() =~= d@.take(i as int));
                    assert(t.last() == d@[i as int]);
                    assert forall|j: int| 0 <= j < t.len() implies digit_value(
                        #[trigger] t[j],
                        radix as int,
                    ) is Some by {
                        if j < i {
                            assert(t[j] == d@.take(i as int)[j]);
                        }
                    }
                    assert(value * radix <= 0xffff_ffff_ffff_ffff * 16) by (nonlinear_arith)
                        requires
                            value <= 0xffff_ffff_ffff_ffff,
                            radix <= 16,
                    ;
                }
                value = value * (radix as u128) + (v as u128);
                i = i + 1;
                if value > max as u128 {
                    proof {
                        if all_digits(d@, radix as int) {
                            lemma_digits_prefix(d@, radix as int, i as int);
                        }
                    }
                    return None;
                }
            },
        }
    }
    assert(d@.take(d@.len() as int) =~= d@);
    Some(value as u64)
}

/// The decimal digit of value `n`.
pub open spec fn decimal_digit(n: int) -> char {
    if n == 0 {
        '0'
    } else if n == 1 {
        '1'
    } else if n == 2 {
        '2'
    } else if n == 3 {
        '3'
    } else if n == 4 {
        '4'
    } else if n == 5 {
        '5'
    } else if n == 6 {
        '6'
    } else if n == 7 {
        '7'
    } else if n == 8 {
        '8'
    } else {
        '9'
    }
}

/// The decimal digits of `n`.
pub open spec fn decimal(n: nat) -> Seq<char>
    decreases n,
{
    if n < 10 {
        seq![decimal_digit(n as int)]
    } else {
        decimal(n / 10).push(decimal_digit((n % 10) as int))
    }
}

fn digit_char(n: u64) -> (c: char)
    requires
        n < 10,
    ensures
        c == decimal_digit(n as int),
{
    match n {
        0 => '0',
        1 => '1',
        2 => '2',
        3 => '3',
        4 => '4',
        5 => '5',
        6 => '6',
        7 => '7',
        8 => '8',
        _ => '9',
    }
}

/// Writes `n` in decimal.
pub fn decimal_string(n: u64) -> (r: String)
    ensures
        r@ == decimal(n as nat),
    decreases n,
{
    if n < 10 {
        let mut r = String::new();
        r.push(digit_char(n));
        assert(r@ =~= decimal(n as nat));
        r
    } else {
        let mut r = decimal_string(n / 10);
        r.push(digit_char(n % 10));
        r
    }
}

/// A number written in decimal is read back.
pub proof fn lemma_decimal(n: nat)
    ensures
        decimal(n).len() >= 1,
        all_digits(decimal(n), 10),
        digits_value(decimal(n), 10) == n,
    decreases n,
{
    if n < 10 {
        let s = decimal(n);
        assert(s.drop_last() =~= Seq::<char>::empty());
        assert(digits_value(s.drop_last(), 10) == 0);
    } else {
        lemma_decimal(n / 10);
        let s = decimal(n);
        assert(s.drop_last() =~= decimal(n / 10));
        assert forall|i: int| 0 <= i < s.len() implies digit_value(#[trigger] s[i], 10) is Some by {
            if i < s.len() - 1 {
                assert(s[i] == decimal(n / 10)[i]);
            }
        }
    }
}

/// Reading what was written gives the number back.
pub proof fn number_reads_decimal(n: nat, max: int)
    requires
        n <= max,
    ensures
        number(decimal(n), 10, max) == Some(n as int),
{
    lemma_decimal(n);
    assert(digit_value(decimal(n)[0], 10) is Some);
}

} // verus!
