//! Text as sequences of characters: classes of characters, cutting text into
//! lines and words, trimming, searching and comparing.

use vstd::prelude::*;
use vstd::slice::slice_subrange;

verus! {

/// `String::push` appends the given character to the end of the string.
pub assume_specification[ String::push ](s: &mut String, c: char)
    ensures
        final(s)@ == old(s)@.push(c),
;

/// `String::push_str` appends the given text to the end of the string.
pub assume_specification[ String::push_str ](s: &mut String, t: &str)
    ensures
        final(s)@ == old(s)@ + t@,
;

/// The form in which `{:?}` writes `s`.
pub uninterp spec fn debug_form(s: Seq<char>) -> Seq<char>;

/// Writes `s` out by `<str as Debug>::fmt`: in double quotes, with escapes for
/// the characters that it does not show as they are. Which characters those
/// are is not stated.
#[verifier::external_body]
pub(crate) fn quoted(s: &str) -> (r: String)
    ensures
        r@ == debug_form(s@),
{
    format!("{s:?}")
}

/// Adds the text of `chars` between double quotes, as [`quoted`] writes it.
pub fn push_quoted_chars(out: &mut String, chars: &[char])
    ensures
        final(out)@ == old(out)@ + debug_form(chars@),
{
    out.push_str(quoted(string_of(chars).as_str()).as_str());
}

/// The first `n` texts between double quotes, with commas between them.
pub open spec fn quoted_items(items: Seq<Seq<char>>, n: int) -> Seq<char>
    decreases n,
{
    if n <= 0 {
        seq![]
    } else if n == 1 {
        debug_form(items[0])
    } else {
        quoted_items(items, n - 1) + ", "@ + debug_form(items[n - 1])
    }
}

/// The texts between double quotes, as a list in square brackets.
pub open spec fn debug_list_form(items: Seq<Seq<char>>) -> Seq<char> {
    "["@ + quoted_items(items, items.len() as int) + "]"@
}

/// Adds the texts between double quotes, as a list in square brackets.
pub fn push_quoted_list(out: &mut String, items: &[&[char]])
    ensures
        final(out)@ == old(out)@ + debug_list_form(views(items@)),
{
    let ghost all = views(items@);
    let mut list = "[".to_owned();
    let mut i: usize = 0;
    assert("["@ + quoted_items(all, 0) =~= "["@);
    while i < items.len()
        invariant
            i <= items@.len(),
            all == views(items@),
            list@ == "["@ + quoted_items(all, i as int),
        decreases items@.len() - i,
    {
        assert(all[i as int] == items@[i as int]@);
        if i > 0 {
            list.push_str(", ");
        }
        push_quoted_chars(&mut list, items[i]);
        proof {
            let form = debug_form(all[i as int]);
            let done = quoted_items(all, i as int);
            if i > 0 {
                assert("["@ + done + ", "@ + form =~= "["@ + (done + ", "@ + form));
            } else {
                assert("["@ + done + form =~= "["@ + form);
            }
        }
        i = i + 1;
    }
    list.push_str("]");
    out.push_str(list.as_str());
}

// ---------------------------------------------------------------- classes

/// Space, tab, line feed, form feed or carriage return.
pub open spec fn is_ascii_space(c: char) -> bool {
    c == ' ' || c == '\t' || c == '\n' || c == '\x0C' || c == '\r'
}

/// The characters that carry the Unicode property `White_Space`.
pub open spec fn is_space(c: char) -> bool {
    ||| '\u{9}' <= c <= '\u{D}'
    ||| c == '\u{20}'
    ||| c == '\u{85}'
    ||| c == '\u{A0}'
    ||| c == '\u{1680}'
    ||| '\u{2000}' <= c <= '\u{200A}'
    ||| c == '\u{2028}'
    ||| c == '\u{2029}'
    ||| c == '\u{202F}'
    ||| c == '\u{205F}'
    ||| c == '\u{3000}'
}

pub open spec fn is_digit(c: char) -> bool {
    '0' <= c <= '9'
}

pub open spec fn is_ascii_alphanumeric(c: char) -> bool {
    '0' <= c <= '9' || 'a' <= c <= 'z' || 'A' <= c <= 'Z'
}

pub fn ascii_space(c: char) -> (r: bool)
    ensures
        r == is_ascii_space(c),
{
    c == ' ' || c == '\t' || c == '\n' || c == '\x0C' || c == '\r'
}

pub fn space(c: char) -> (r: bool)
    ensures
        r == is_space(c),
{
    ('\u{9}' <= c && c <= '\u{D}') || c == '\u{20}' || c == '\u{85}' || c == '\u{A0}' || c
        == '\u{1680}' || ('\u{2000}' <= c && c <= '\u{200A}') || c == '\u{2028}' || c == '\u{2029}'
        || c == '\u{202F}' || c == '\u{205F}' || c == '\u{3000}'
}

pub fn digit(c: char) -> (r: bool)
    ensures
        r == is_digit(c),
{
    '0' <= c && c <= '9'
}

pub fn ascii_alphanumeric(c: char) -> (r: bool)
    ensures
        r == is_ascii_alphanumeric(c),
{
    ('0' <= c && c <= '9') || ('a' <= c && c <= 'z') || ('A' <= c && c <= 'Z')
}

// ------------------------------------------------- characters and strings

/// The characters of `s`.
pub fn chars_of(s: &str) -> (v: Vec<char>)
    ensures
        v@ == s@,
{
    let mut v: Vec<char> = Vec::new();
    for c in it: s.chars()
        invariant
            it.seq() == s@,
            v@ == s@.take(it.index()),
    {
        proof {
            assert(s@.take(it.index() + 1) =~= s@.take(it.index()).push(c));
        }
        v.push(c);
    }
    assert(s@.take(s@.len() as int) =~= s@);
    v
}

/// The string made of `chars`.
pub fn string_of(chars: &[char]) -> (s: String)
    ensures
        s@ == chars@,
{
    let mut s = String::new();
    push_chars(&mut s, chars);
    s
}

/// Appends `chars` to `s`.
pub fn push_chars(s: &mut String, chars: &[char])
    ensures
        final(s)@ == old(s)@ + chars@,
{
    let mut i: usize = 0;
    while i < chars.len()
        invariant
            i <= chars@.len(),
            s@ == old(s)@ + chars@.take(i as int),
        decreases chars@.len() - i,
    {
        proof {
            assert(chars@.take(i + 1) =~= chars@.take(i as int).push(chars@[i as int]));
        }
        s.push(chars[i]);
        i = i + 1;
    }
    assert(chars@.take(chars@.len() as int) =~= chars@);
}

/// What an optional string says.
pub open spec fn opt_view(s: Option<String>) -> Option<Seq<char>> {
    match s {
        Some(s) => Some(s@),
        None => None,
    }
}

/// What each slice of `v` holds.
pub open spec fn views(v: Seq<&[char]>) -> Seq<Seq<char>> {
    Seq::new(v.len(), |i: int| v[i]@)
}

/// Whether `chars` spell `s`.
pub fn same(chars: &[char], s: &str) -> (r: bool)
    ensures
        r == (chars@ == s@),
{
    let other = chars_of(s);
    same_chars(chars, other.as_slice())
}

/// Whether two slices hold the same characters.
pub fn same_chars(a: &[char], b: &[char]) -> (r: bool)
    ensures
        r == (a@ == b@),
{
    if a.len() != b.len() {
        return false;
    }
    let mut i: usize = 0;
    while i < a.len()
        invariant
            i <= a@.len(),
            a@.len() == b@.len(),
            forall|j: int| 0 <= j < i ==> a@[j] == b@[j],
        decreases a@.len() - i,
    {
        if a[i] != b[i] {
            return false;
        }
        i = i + 1;
    }
    assert(a@ =~= b@);
    true
}

/// Whether two strings spell the same text.
pub fn same_str(a: &str, b: &str) -> (r: bool)
    ensures
        r == (a@ == b@),
{
    let x = chars_of(a);
    same(x.as_slice(), b)
}

// ------------------------------------------------------ runs of characters

/// The length of the longest prefix of `s` whose characters all satisfy `p`.
pub open spec fn run(s: Seq<char>, p: spec_fn(char) -> bool) -> int
    decreases s.len(),
{
    if s.len() > 0 && p(s[0]) {
        1 + run(s.drop_first(), p)
    } else {
        0
    }
}

/// A run ends at the first character that fails `p`, or where the text ends.
pub proof fn lemma_run(s: Seq<char>, p: spec_fn(char) -> bool, n: int)
    requires
        0 <= n <= s.len(),
        forall|j: int| 0 <= j < n ==> p(#[trigger] s[j]),
        n == s.len() || !p(s[n]),
    ensures
        run(s, p) == n,
    decreases n,
{
    if n > 0 {
        assert(p(s[0]));
        assert forall|j: int| 0 <= j < n - 1 implies p(#[trigger] s.drop_first()[j]) by {
            assert(s.drop_first()[j] == s[j + 1]);
        }
        lemma_run(s.drop_first(), p, n - 1);
    }
}

/// What a run's length says of the text.
pub proof fn lemma_run_meaning(s: Seq<char>, p: spec_fn(char) -> bool)
    ensures
        0 <= run(s, p) <= s.len(),
        forall|j: int| 0 <= j < run(s, p) ==> p(#[trigger] s[j]),
        run(s, p) < s.len() ==> !p(s[run(s, p)]),
    decreases s.len(),
{
    if s.len() > 0 && p(s[0]) {
        let t = s.drop_first();
        lemma_run_meaning(t, p);
        assert forall|j: int| 0 <= j < run(s, p) implies p(#[trigger] s[j]) by {
            if j > 0 {
                assert(s[j] == t[j - 1]);
            }
        }
        if run(s, p) < s.len() {
            assert(s[run(s, p)] == t[run(t, p)]);
        }
    }
}

/// Holds of every character but `c`.
pub open spec fn other_than(c: char) -> spec_fn(char) -> bool {
    |x: char| x != c
}

/// The position of the first `c` in `s`, or the length of `s`.
pub open spec fn first_index(s: Seq<char>, c: char) -> int {
    run(s, other_than(c))
}

/// Finds the first `c` in `s`.
pub fn find_char(s: &[char], c: char) -> (r: usize)
    ensures
        r == first_index(s@, c),
        r <= s@.len(),
        r < s@.len() ==> s@[r as int] == c,
        forall|j: int| 0 <= j < r ==> s@[j] != c,
{
    let mut i: usize = 0;
    while i < s.len() && s[i] != c
        invariant
            i <= s@.len(),
            forall|j: int| 0 <= j < i ==> s@[j] != c,
        decreases s@.len() - i,
    {
        i = i + 1;
    }
    proof {
        lemma_run(s@, other_than(c), i as int);
    }
    i
}

/// The position after the last `c` in `s`, or 0 where there is none.
pub open spec fn after_last_index(s: Seq<char>, c: char) -> int
    decreases s.len(),
{
    if s.len() == 0 || s.last() == c {
        s.len() as int
    } else {
        after_last_index(s.drop_last(), c)
    }
}

/// Finds the last `c` in `s`; the result is the position after it, or 0.
pub fn find_last_char(s: &[char], c: char) -> (r: usize)
    ensures
        r == after_last_index(s@, c),
        r <= s@.len(),
        r > 0 ==> s@[r - 1] == c,
{
    let mut i: usize = s.len();
    assert(s@.take(s@.len() as int) =~= s@);
    while i > 0 && s[i - 1] != c
        invariant
            i <= s@.len(),
            after_last_index(s@, c) == after_last_index(s@.take(i as int), c),
        decreases i,
    {
        proof {
            assert(s@.take(i as int).drop_last() =~= s@.take(i - 1));
        }
        i = i - 1;
    }
    i
}

// --------------------------------------------------------------- splitting

/// The pieces of `s` between the occurrences of `c`. There is always one more
/// piece than there are separators.
pub open spec fn split(s: Seq<char>, c: char) -> Seq<Seq<char>>
    decreases s.len(),
    via split_decreases
{
    let i = first_index(s, c);
    if i >= s.len() {
        seq![s]
    } else {
        seq![s.take(i)] + split(s.skip(i + 1), c)
    }
}

#[via_fn]
proof fn split_decreases(s: Seq<char>, c: char) {
    lemma_run_meaning(s, other_than(c));
}

/// Cuts `s` at every `c`.
pub fn split_at_char<'a>(s: &'a [char], c: char) -> (r: Vec<&'a [char]>)
    ensures
        views(r@) == split(s@, c),
        r@.len() >= 1,
{
    let mut out: Vec<&'a [char]> = Vec::new();
    let mut start: usize = 0;
    assert(s@.skip(0) =~= s@);
    assert(views(out@) + split(s@, c) =~= split(s@, c));
    loop
        invariant
            start <= s@.len(),
            views(out@) + split(s@.skip(start as int), c) == split(s@, c),
        decreases s@.len() - start,
    {
        let rest = slice_subrange(s, start, s.len());
        let n = find_char(rest, c);
        let ghost before = views(out@);
        if n == rest.len() {
            out.push(rest);
            assert(views(out@) =~= before + seq![rest@]);
            return out;
        }
        let piece = slice_subrange(rest, 0, n);
        out.push(piece);
        proof {
            assert(views(out@) =~= before + seq![rest@.take(n as int)]);
            assert(rest@.skip(n + 1) =~= s@.skip(start + n + 1));
            assert(before + (seq![rest@.take(n as int)] + split(rest@.skip(n + 1), c))
                =~= views(out@) + split(rest@.skip(n + 1), c));
        }
        start = start + n + 1;
    }
}

/// `s` without one carriage return at its end, where it has one.
pub open spec fn without_cr(s: Seq<char>) -> Seq<char> {
    if s.len() > 0 && s.last() == '\r' {
        s.drop_last()
    } else {
        s
    }
}

/// The lines of `s`: the pieces between line feeds, each without the carriage
/// return before its line feed. Text after the last line feed is a line too,
/// unless it is empty.
pub open spec fn lines(s: Seq<char>) -> Seq<Seq<char>> {
    let pieces = split(s, '\n');
    let n = pieces.len();
    Seq::new(
        if pieces.last().len() == 0 {
            (n - 1) as nat
        } else {
            n
        },
        |i: int|
            if i < n - 1 {
                without_cr(pieces[i])
            } else {
                pieces[i]
            },
    )
}

/// Cuts `s` into lines.
pub fn lines_of<'a>(s: &'a [char]) -> (r: Vec<&'a [char]>)
    ensures
        views(r@) == lines(s@),
{
    let pieces = split_at_char(s, '\n');
    let n = pieces.len();
    let mut out: Vec<&'a [char]> = Vec::new();
    let mut i: usize = 0;
    while i + 1 < n
        invariant
            n == pieces@.len(),
            n >= 1,
            i <= n - 1,
            out@.len() == i,
            views(pieces@) == split(s@, '\n'),
            forall|j: int| 0 <= j < i ==> #[trigger] out@[j]@ == without_cr(pieces@[j]@),
        decreases n - i,
    {
        let piece = pieces[i];
        if piece.len() > 0 && piece[piece.len() - 1] == '\r' {
            out.push(slice_subrange(piece, 0, piece.len() - 1));
        } else {
            out.push(piece);
        }
        i = i + 1;
    }
    let last = pieces[n - 1];
    assert(split(s@, '\n')[n - 1] == last@);
    if last.len() > 0 {
        out.push(last);
    }
    proof {
        assert forall|j: int| 0 <= j < out@.len() implies views(out@)[j] == lines(s@)[j] by {
            assert(views(pieces@)[j] == pieces@[j]@);
        }
        assert(views(out@) =~= lines(s@));
    }
    out
}

/// Holds of the characters that separate words.
pub open spec fn separator() -> spec_fn(char) -> bool {
    |c: char| is_ascii_space(c)
}

/// Holds of the characters that make up words.
pub open spec fn word_char() -> spec_fn(char) -> bool {
    |c: char| !is_ascii_space(c)
}

/// The words of `s`: its longest runs of characters other than ASCII white
/// space, in order.
pub open spec fn words(s: Seq<char>) -> Seq<Seq<char>>
    decreases s.len(),
    via words_decreases
{
    let t = s.skip(run(s, separator()));
    if t.len() == 0 {
        seq![]
    } else {
        let n = run(t, word_char());
        seq![t.take(n)] + words(t.skip(n))
    }
}

#[via_fn]
proof fn words_decreases(s: Seq<char>) {
    lemma_run_meaning(s, separator());
    let t = s.skip(run(s, separator()));
    lemma_run_meaning(t, word_char());
}

/// Text that starts with a character of a word has a first word.
pub proof fn lemma_first_word(s: Seq<char>)
    requires
        s.len() > 0,
        !is_ascii_space(s[0]),
    ensures
        words(s).len() > 0,
{
    lemma_run(s, separator(), 0);
    assert(s.skip(0) =~= s);
}

/// Cuts `s` into words.
pub fn words_of<'a>(s: &'a [char]) -> (r: Vec<&'a [char]>)
    ensures
        views(r@) == words(s@),
{
    let mut out: Vec<&'a [char]> = Vec::new();
    let mut start: usize = 0;
    assert(s@.skip(0) =~= s@);
    assert(views(out@) + words(s@) =~= words(s@));
    loop
        invariant
            start <= s@.len(),
            views(out@) + words(s@.skip(start as int)) == words(s@),
        decreases s@.len() - start,
    {
        let ghost rest = s@.skip(start as int);
        let mut a: usize = start;
        while a < s.len() && ascii_space(s[a])
            invariant
                start <= a <= s@.len(),
                forall|j: int| start <= j < a ==> is_ascii_space(#[trigger] s@[j]),
            decreases s@.len() - a,
        {
            a = a + 1;
        }
        proof {
            lemma_run(rest, separator(), a - start);
        }
        let ghost t = rest.skip(a - start);
        assert(t =~= s@.skip(a as int));
        if a == s.len() {
            assert(views(out@) + words(rest) =~= views(out@));
            return out;
        }
        let mut b: usize = a;
        while b < s.len() && !ascii_space(s[b])
            invariant
                a <= b <= s@.len(),
                forall|j: int| a <= j < b ==> !is_ascii_space(#[trigger] s@[j]),
            decreases s@.len() - b,
        {
            b = b + 1;
        }
        let ghost before = views(out@);
        let w = slice_subrange(s, a, b);
        out.push(w);
        proof {
            lemma_run(t, word_char(), b - a);
            assert(t.take(b - a) =~= w@);
            assert(t.skip(b - a) =~= s@.skip(b as int));
            assert(views(out@) =~= before + seq![w@]);
            assert(before + (seq![w@] + words(s@.skip(b as int))) =~= views(out@) + words(
                s@.skip(b as int),
            ));
        }
        start = b;
    }
}

/// Whether `s` is a word: not empty and without ASCII white space.
pub open spec fn is_word(s: Seq<char>) -> bool {
    s.len() > 0 && forall|i: int| 0 <= i < s.len() ==> !is_ascii_space(#[trigger] s[i])
}

/// Whether all of `ws` are words.
pub open spec fn are_words(ws: Seq<Seq<char>>) -> bool {
    forall|i: int| 0 <= i < ws.len() ==> is_word(#[trigger] ws[i])
}

/// The words one after the other, each behind a space.
pub open spec fn spaced(ws: Seq<Seq<char>>) -> Seq<char>
    decreases ws.len(),
{
    if ws.len() == 0 {
        seq![]
    } else {
        seq![' '] + ws[0] + spaced(ws.skip(1))
    }
}

/// Words behind spaces come apart again, whatever word stands before them.
pub proof fn words_come_apart(first: Seq<char>, ws: Seq<Seq<char>>)
    requires
        is_word(first),
        are_words(ws),
    ensures
        words(spaced(ws)) == ws,
        words(first + spaced(ws)) == seq![first] + ws,
    decreases ws.len(),
{
    let rest = spaced(ws);
    if ws.len() > 0 {
        assert(is_word(ws[0]));
        let more = ws.skip(1);
        assert forall|i: int| 0 <= i < more.len() implies is_word(#[trigger] more[i]) by {
            assert(more[i] == ws[i + 1]);
        }
        words_come_apart(ws[0], more);
        let t = ws[0] + spaced(more);
        assert(rest =~= seq![' '] + t);
        assert(!is_ascii_space(t[0]));
        lemma_run(rest, separator(), 1);
        lemma_run(t, separator(), 0);
        assert(rest.skip(1) =~= t);
        assert(t.skip(0) =~= t);
        assert(words(rest) == words(t));
        assert(seq![ws[0]] + more =~= ws);
    } else {
        lemma_run(rest, separator(), 0);
        assert(rest.skip(0) =~= rest);
        assert(words(rest) =~= ws);
    }
    let whole = first + rest;
    let n = first.len() as int;
    assert(!is_ascii_space(first[0]));
    lemma_run(whole, separator(), 0);
    assert(whole.skip(0) =~= whole);
    assert forall|j: int| 0 <= j < n implies word_char()(#[trigger] whole[j]) by {
        assert(whole[j] == first[j]);
    }
    assert(n < whole.len() ==> whole[n] == ' ');
    lemma_run(whole, word_char(), n);
    assert(whole.take(n) =~= first);
    assert(whole.skip(n) =~= rest);
}

// ---------------------------------------------------------------- trimming

/// Holds of white space.
pub open spec fn blank() -> spec_fn(char) -> bool {
    |c: char| is_space(c)
}

/// `s` without the white space at its start.
pub open spec fn trim_start(s: Seq<char>) -> Seq<char> {
    s.skip(run(s, blank()))
}

/// `s` without the white space at its end.
pub open spec fn trim_end(s: Seq<char>) -> Seq<char>
    decreases s.len(),
{
    if s.len() > 0 && is_space(s.last()) {
        trim_end(s.drop_last())
    } else {
        s
    }
}

/// `s` without the white space at either end.
pub open spec fn trim(s: Seq<char>) -> Seq<char> {
    trim_end(trim_start(s))
}

pub fn trimmed_start<'a>(s: &'a [char]) -> (r: &'a [char])
    ensures
        r@ == trim_start(s@),
{
    let mut i: usize = 0;
    while i < s.len() && space(s[i])
        invariant
            i <= s@.len(),
            forall|j: int| 0 <= j < i ==> is_space(#[trigger] s@[j]),
        decreases s@.len() - i,
    {
        i = i + 1;
    }
    proof {
        lemma_run(s@, blank(), i as int);
    }
    slice_subrange(s, i, s.len())
}

pub fn trimmed<'a>(s: &'a [char]) -> (r: &'a [char])
    ensures
        r@ == trim(s@),
{
    let t = trimmed_start(s);
    let mut n: usize = t.len();
    assert(t@.take(n as int) =~= t@);
    while n > 0 && space(t[n - 1])
        invariant
            n <= t@.len(),
            trim_end(t@) == trim_end(t@.take(n as int)),
        decreases n,
    {
        proof {
            assert(t@.take(n as int).drop_last() =~= t@.take(n - 1));
        }
        n = n - 1;
    }
    slice_subrange(t, 0, n)
}

// ---------------------------------------------------------------- prefixes

/// Whether `s` starts with `p`.
pub open spec fn starts(s: Seq<char>, p: Seq<char>) -> bool {
    p.len() <= s.len() && s.take(p.len() as int) == p
}

/// Whether `s` ends with `c`.
pub open spec fn ends_with(s: Seq<char>, c: char) -> bool {
    s.len() > 0 && s.last() == c
}

/// What follows `p` in `s`, where `s` starts with it.
pub fn strip_prefix<'a>(s: &'a [char], p: &str) -> (r: Option<&'a [char]>)
    ensures
        match r {
            Some(t) => starts(s@, p@) && t@ == s@.skip(p@.len() as int),
            None => !starts(s@, p@),
        },
{
    let q = chars_of(p);
    if s.len() < q.len() {
        return None;
    }
    if same_chars(slice_subrange(s, 0, q.len()), q.as_slice()) {
        Some(slice_subrange(s, q.len(), s.len()))
    } else {
        None
    }
}

// -------------------------------------------------------------------- laws

/// The first and the last of a character are found, whatever else the text
/// holds.
pub proof fn characters_are_found(a: Seq<char>, c: char, b: Seq<char>)
    ensures
        !a.contains(c) ==> first_index(a + seq![c] + b, c) == a.len() && first_index(a, c)
            == a.len(),
        !b.contains(c) ==> after_last_index(a + seq![c] + b, c) == a.len() + 1
            && after_last_index(b, c) == 0,
    decreases b.len(),
{
    let whole = a + seq![c] + b;
    let n = a.len() as int;
    if !a.contains(c) {
        assert forall|j: int| 0 <= j < n implies other_than(c)(#[trigger] whole[j]) by {
            assert(whole[j] == a[j]);
        }
        lemma_run(whole, other_than(c), n);
        lemma_run(a, other_than(c), n);
    }
    if !b.contains(c) {
        if b.len() == 0 {
            assert(whole.last() == c);
        } else {
            let front = b.drop_last();
            assert(b.contains(b.last()));
            assert forall|j: int| 0 <= j < front.len() implies front[j] != c by {
                assert(b.contains(b[j]));
            }
            characters_are_found(a, c, front);
            assert(whole.drop_last() =~= a + seq![c] + front);
            assert(whole.last() == b.last());
        }
    }
}

/// Text is cut at every separator and nowhere else.
pub proof fn text_is_cut_at_separators(a: Seq<char>, c: char, b: Seq<char>)
    requires
        !a.contains(c),
    ensures
        split(a, c) == seq![a],
        split(a + seq![c] + b, c) == seq![a] + split(b, c),
{
    let whole = a + seq![c] + b;
    let n = a.len() as int;
    characters_are_found(a, c, b);
    assert(whole.take(n) =~= a);
    assert(whole.skip(n + 1) =~= b);
}

/// A line ends at a line feed, which a carriage return may precede, and at the
/// end of the text.
pub proof fn lines_end_at_line_feeds(a: Seq<char>, b: Seq<char>)
    requires
        !a.contains('\n'),
    ensures
        lines(seq![]) == Seq::<Seq<char>>::empty(),
        a.len() > 0 ==> lines(a) == seq![a],
        a.len() == 0 || a.last() != '\r' ==> lines(a + seq!['\n'] + b) == seq![a] + lines(b),
        lines(a + seq!['\r', '\n'] + b) == seq![a] + lines(b),
{
    let none = Seq::<char>::empty();
    assert(!none.contains('\n'));
    text_is_cut_at_separators(none, '\n', b);
    assert(lines(none) =~= seq![]);
    text_is_cut_at_separators(a, '\n', b);
    if a.len() > 0 {
        assert(lines(a) =~= seq![a]);
    }
    lemma_split_is_not_empty(b, '\n');
    if a.len() == 0 || a.last() != '\r' {
        assert(lines(a + seq!['\n'] + b) =~= seq![a] + lines(b));
    }
    let returned = a + seq!['\r'];
    assert forall|j: int| 0 <= j < returned.len() implies returned[j] != '\n' by {
        if j < a.len() {
            assert(a.contains(a[j]));
        }
    }
    text_is_cut_at_separators(returned, '\n', b);
    assert(a + seq!['\r', '\n'] + b =~= returned + seq!['\n'] + b);
    assert(without_cr(returned) =~= a);
    assert(lines(returned + seq!['\n'] + b) =~= seq![a] + lines(b));
}

proof fn lemma_split_is_not_empty(s: Seq<char>, c: char)
    ensures
        split(s, c).len() > 0,
{
}

/// Words are cut at white space, however much of it there is, and nowhere else.
pub proof fn words_are_cut_at_blanks(w: Seq<char>, c: char, b: Seq<char>)
    requires
        is_word(w),
        is_ascii_space(c),
    ensures
        words(seq![]) == Seq::<Seq<char>>::empty(),
        words(seq![c] + b) == words(b),
        words(w) == seq![w],
        words(w + seq![c] + b) == seq![w] + words(b),
{
    let none = Seq::<char>::empty();
    lemma_run(none, separator(), 0);
    assert(none.skip(0) =~= none);
    let behind = seq![c] + b;
    lemma_run_meaning(b, separator());
    let k = run(b, separator());
    assert forall|j: int| 0 <= j < k + 1 implies separator()(#[trigger] behind[j]) by {
        if j > 0 {
            assert(behind[j] == b[j - 1]);
        }
    }
    if k < b.len() {
        assert(behind[k + 1] == b[k]);
    }
    lemma_run(behind, separator(), k + 1);
    assert(behind.skip(k + 1) =~= b.skip(k));
    assert(words(behind) == words(b));
    words_come_apart(w, seq![]);
    assert(w + spaced(seq![]) =~= w);
    assert(seq![w] + Seq::<Seq<char>>::empty() =~= seq![w]);
    let whole = w + seq![c] + b;
    let n = w.len() as int;
    assert(!is_ascii_space(w[0]));
    lemma_run(whole, separator(), 0);
    assert(whole.skip(0) =~= whole);
    assert forall|j: int| 0 <= j < n implies word_char()(#[trigger] whole[j]) by {
        assert(whole[j] == w[j]);
    }
    assert(whole[n] == c);
    lemma_run(whole, word_char(), n);
    assert(whole.take(n) =~= w);
    assert(whole.skip(n) =~= behind);
    assert(words(whole) == seq![w] + words(behind));
}

/// Trimming takes away the white space at the ends, and nothing else.
pub proof fn ends_are_trimmed(a: Seq<char>, m: Seq<char>, b: Seq<char>)
    requires
        forall|i: int| 0 <= i < a.len() ==> is_space(#[trigger] a[i]),
        forall|i: int| 0 <= i < b.len() ==> is_space(#[trigger] b[i]),
        m.len() > 0 ==> !is_space(m[0]) && !is_space(m.last()),
    ensures
        m.len() > 0 ==> trim_start(a + m + b) == m + b,
        trim(a + m + b) == m,
{
    let whole = a + m + b;
    if m.len() > 0 {
        let n = a.len() as int;
        assert forall|j: int| 0 <= j < n implies blank()(#[trigger] whole[j]) by {
            assert(whole[j] == a[j]);
        }
        assert(whole[n] == m[0]);
        lemma_run(whole, blank(), n);
        assert(whole.skip(n) =~= m + b);
        lemma_trim_end(m, b);
    } else {
        assert forall|j: int| 0 <= j < whole.len() implies blank()(#[trigger] whole[j]) by {
            if j < a.len() {
                assert(whole[j] == a[j]);
            } else {
                assert(whole[j] == b[j - a.len()]);
            }
        }
        lemma_run(whole, blank(), whole.len() as int);
        assert(trim(whole) =~= m);
    }
}

proof fn lemma_trim_end(m: Seq<char>, b: Seq<char>)
    requires
        m.len() > 0,
        !is_space(m.last()),
        forall|i: int| 0 <= i < b.len() ==> is_space(#[trigger] b[i]),
    ensures
        trim_end(m + b) == m,
    decreases b.len(),
{
    let whole = m + b;
    if b.len() == 0 {
        assert(whole =~= m);
    } else {
        let front = b.drop_last();
        assert forall|i: int| 0 <= i < front.len() implies is_space(#[trigger] front[i]) by {
            assert(front[i] == b[i]);
        }
        lemma_trim_end(m, front);
        assert(whole.last() == b[b.len() - 1]);
        assert(whole.drop_last() =~= m + front);
    }
}

/// White space is what ASCII has of it and more; nothing that ASCII prints is any.
pub proof fn printed_characters_are_no_white_space(c: char)
    ensures
        is_ascii_space(c) <==> c == '\u{20}' || c == '\u{9}' || c == '\u{A}' || c == '\u{C}' || c
            == '\u{D}',
        is_ascii_space(c) ==> is_space(c),
        '!' <= c <= '~' ==> !is_space(c),
        '0' <= c <= '9' <==> is_digit(c),
        is_ascii_alphanumeric(c) <==> is_digit(c) || 'a' <= c <= 'z' || 'A' <= c <= 'Z',
{
}

/// Text that is put together starts with its first part.
pub proof fn lemma_starts(a: Seq<char>, b: Seq<char>)
    ensures
        starts(a + b, a),
{
    assert((a + b).take(a.len() as int) =~= a);
}

} // verus!
