//! Locales and the keys by which a localized value is looked up.
//!
//! A locale reads `lang_COUNTRY.ENCODING@MODIFIER`, where every part but the
//! language may be missing. A localized key of a desktop entry names a locale
//! without its encoding, and the keys that fit a locale are tried from the
//! most specific to the least.

use vstd::prelude::*;

use crate::text::{
    chars_eq, chars_of, copy_range, find, find_char, lemma_find, occurs, push_all, string_of,
    views,
};

verus! {

/// The index of the first `lead` in `s` that is followed by a character other
/// than `@`, or the length of `s` where there is none.
pub open spec fn run_start(s: Seq<char>, lead: char) -> int
    decreases s.len(),
{
    if s.len() < 2 {
        s.len() as int
    } else if s[0] == lead && s[1] != '@' {
        0
    } else {
        1 + run_start(s.skip(1), lead)
    }
}

/// `run_start(s, lead)` is the one index `n` at which `lead` stands before a
/// character other than `@`, with no such index before it; or the length of
/// `s`, where there is no such index at all.
pub proof fn lemma_run_start(s: Seq<char>, lead: char, n: int)
    requires
        0 <= n <= s.len(),
        forall|j: int| 0 <= j < n && j + 1 < s.len() ==> !(#[trigger] s[j] == lead && s[j + 1] != '@'),
        n < s.len() ==> n + 1 < s.len() && s[n] == lead && s[n + 1] != '@',
    ensures
        run_start(s, lead) == n,
    decreases s.len(),
{
    if s.len() < 2 {
    } else if n > 0 {
        assert(!(s[0] == lead && s[1] != '@'));
        let t = s.skip(1);
        assert forall|j: int| 0 <= j < n - 1 && j + 1 < t.len() implies !(#[trigger] t[j] == lead
            && t[j + 1] != '@') by {
            assert(t[j] == s[j + 1]);
            assert(t[j + 1] == s[j + 2]);
        }
        if n < s.len() {
            assert(t[n - 1] == s[n]);
            assert(t[n] == s[n + 1]);
        }
        lemma_run_start(t, lead, n - 1);
    }
}

/// `s` without the first run that `lead` opens: the first `lead` that is
/// followed by a character other than `@`, and all that follows it up to the
/// next `@` or the end. Where `s` has no such run, it is `s`.
pub open spec fn without_run(s: Seq<char>, lead: char) -> Seq<char> {
    let n = run_start(s, lead);
    if 0 <= n < s.len() {
        s.take(n) + s.skip(n + 1 + find(s.skip(n + 1), '@'))
    } else {
        s
    }
}

/// `s` without what stands from `from` to the end of the line: up to the next
/// line feed or the end. Where `from` is the length of `s`, it is `s`.
pub open spec fn without_line_tail(s: Seq<char>, from: int) -> Seq<char> {
    if 0 <= from < s.len() {
        s.take(from) + s.skip(from + 1 + find(s.skip(from + 1), '\n'))
    } else {
        s
    }
}

/// The index of the first `_` or `@` in `s`, or the length of `s`.
pub open spec fn first_separator(s: Seq<char>) -> int {
    let a = find(s, '_');
    let b = find(s, '@');
    if a <= b {
        a
    } else {
        b
    }
}

/// `s` without its encoding: the run that the first `.` opens.
pub open spec fn without_encoding(s: Seq<char>) -> Seq<char> {
    without_run(s, '.')
}

/// Whether `s` names a country and a modifier: a `_` that opens a run, with
/// an `@` after it.
pub open spec fn has_country_and_modifier(s: Seq<char>) -> bool {
    let n = run_start(s, '_');
    0 <= n < s.len() && occurs(s.skip(n + 1), '@')
}

/// `s` without its modifier: the first `@` and the rest of its line.
pub open spec fn without_modifier(s: Seq<char>) -> Seq<char> {
    without_line_tail(s, find(s, '@'))
}

/// `s` without its country: the run that the first `_` opens.
pub open spec fn without_country(s: Seq<char>) -> Seq<char> {
    without_run(s, '_')
}

/// The language of `s`: `s` without its first `_` or `@` and the rest of the
/// line.
pub open spec fn language(s: Seq<char>) -> Seq<char> {
    without_line_tail(s, first_separator(s))
}

/// The keys that fit the locale `lc_messages`, from the most specific to the
/// least: the locale without its encoding; where it names a country and a
/// modifier, the locale without the modifier and then without the country;
/// and last the language, unless the language is all there is.
pub open spec fn locale_keys(lc_messages: Seq<char>) -> Seq<Seq<char>> {
    let full = without_encoding(lc_messages);
    let narrowed = if has_country_and_modifier(full) {
        seq![without_modifier(full), without_country(full)]
    } else {
        Seq::empty()
    };
    let lang = if language(full) != full {
        seq![language(full)]
    } else {
        Seq::empty()
    };
    seq![full] + narrowed + lang
}

/// The index of the first `lead` in `v` that is followed by a character other
/// than `@`, or the length of `v`.
fn find_run(v: &[char], lead: char) -> (n: usize)
    ensures
        n == run_start(v@, lead),
        n <= v.len(),
        n < v.len() ==> n + 1 < v.len(),
{
    let mut i: usize = 0;
    while v.len() - i > 1 && !(v[i] == lead && v[i + 1] != '@')
        invariant
            i <= v.len(),
            forall|j: int|
                0 <= j < i && j + 1 < v.len() ==> !(#[trigger] v@[j] == lead && v@[j + 1] != '@'),
        decreases v.len() - i,
    {
        i += 1;
    }
    let n = if v.len() - i > 1 {
        i
    } else {
        v.len()
    };
    proof {
        lemma_run_start(v@, lead, n as int);
    }
    n
}

/// `v` without the characters `v[from..to]`.
fn without_range(v: &[char], from: usize, to: usize) -> (out: Vec<char>)
    requires
        from <= to <= v.len(),
    ensures
        out@ == v@.take(from as int) + v@.skip(to as int),
{
    let mut out = copy_range(v, 0, from);
    let rest = copy_range(v, to, v.len());
    push_all(&mut out, rest.as_slice());
    proof {
        assert(v@.take(from as int) =~= v@.subrange(0, from as int));
        assert(v@.skip(to as int) =~= v@.subrange(to as int, v.len() as int));
    }
    out
}

/// The index of the first `c` at or after `from`, or the length of `v`.
fn find_char_from(v: &[char], from: usize, c: char) -> (n: usize)
    requires
        from <= v.len(),
    ensures
        from <= n <= v.len(),
        n - from == find(v@.skip(from as int), c),
{
    let mut i: usize = from;
    while i < v.len() && v[i] != c
        invariant
            from <= i <= v.len(),
            forall|j: int| from <= j < i ==> #[trigger] v@[j] != c,
        decreases v.len() - i,
    {
        i += 1;
    }
    proof {
        let t = v@.skip(from as int);
        assert forall|j: int| 0 <= j < i - from implies #[trigger] t[j] != c by {
            assert(t[j] == v@[j + from]);
        }
        if i < v.len() {
            assert(t[i - from] == v@[i as int]);
        }
        lemma_find(t, c, i - from);
    }
    i
}

/// Removes the first run that `lead` opens.
fn remove_run(v: &[char], lead: char) -> (out: Vec<char>)
    ensures
        out@ == without_run(v@, lead),
{
    let n = find_run(v, lead);
    if n < v.len() {
        let end = find_char_from(v, n + 1, '@');
        without_range(v, n, end)
    } else {
        let out = copy_range(v, 0, v.len());
        assert(out@ =~= v@);
        out
    }
}

/// Removes what stands from `from` to the end of the line.
fn remove_line_tail(v: &[char], from: usize) -> (out: Vec<char>)
    requires
        from <= v.len(),
    ensures
        out@ == without_line_tail(v@, from as int),
{
    if from < v.len() {
        let end = find_char_from(v, from + 1, '\n');
        without_range(v, from, end)
    } else {
        let out = copy_range(v, 0, v.len());
        assert(out@ =~= v@);
        out
    }
}

/// The keys by which a value localized for `lc_messages` is looked up, the
/// best first.
pub fn get_locale_keys(lc_messages: &str) -> (suffixes: Vec<String>)
    ensures
        views(suffixes@) == locale_keys(lc_messages@),
{
    let given = chars_of(lc_messages);
    let full = remove_run(given.as_slice(), '.');
    let lc = full.as_slice();
    let mut suffixes: Vec<String> = Vec::new();
    suffixes.push(string_of(lc));
    assert(views(suffixes@) =~= seq![full@]);
    let country = find_run(lc, '_');
    let modifier = find_char(lc, '@');
    if country < lc.len() && find_char_from(lc, country + 1, '@') < lc.len() {
        let ghost before = views(suffixes@);
        let no_modifier = remove_line_tail(lc, modifier);
        suffixes.push(string_of(no_modifier.as_slice()));
        let no_country = remove_run(lc, '_');
        suffixes.push(string_of(no_country.as_slice()));
        assert(views(suffixes@) =~= before + seq![without_modifier(full@), without_country(full@)]);
    }
    let underscore = find_char(lc, '_');
    let separator = if underscore <= modifier {
        underscore
    } else {
        modifier
    };
    let lang = remove_line_tail(lc, separator);
    if !chars_eq(lang.as_slice(), lc) {
        let ghost before = views(suffixes@);
        suffixes.push(string_of(lang.as_slice()));
        assert(views(suffixes@) =~= before + seq![language(full@)]);
    }
    assert(views(suffixes@) =~= locale_keys(lc_messages@));
    suffixes
}

/// Whether `c` does not occur in `s`.
pub open spec fn free_of(s: Seq<char>, c: char) -> bool {
    forall|i: int| 0 <= i < s.len() ==> #[trigger] s[i] != c
}

/// The locale `lang_COUNTRY@MODIFIER`.
pub open spec fn full_locale(lang: Seq<char>, country: Seq<char>, modifier: Seq<char>) -> Seq<
    char,
> {
    lang + seq!['_'] + country + seq!['@'] + modifier
}

/// The locale `lang_COUNTRY.ENCODING@MODIFIER`.
pub open spec fn encoded_locale(
    lang: Seq<char>,
    country: Seq<char>,
    encoding: Seq<char>,
    modifier: Seq<char>,
) -> Seq<char> {
    lang + seq!['_'] + country + seq!['.'] + encoding + seq!['@'] + modifier
}

/// The four keys of a locale with a language, a country and a modifier.
pub open spec fn four_keys(lang: Seq<char>, country: Seq<char>, modifier: Seq<char>) -> Seq<
    Seq<char>,
> {
    seq![
        lang + seq!['_'] + country + seq!['@'] + modifier,
        lang + seq!['_'] + country,
        lang + seq!['@'] + modifier,
        lang,
    ]
}

/// The parts of `lang_COUNTRY@MODIFIER` are found again: the country and the
/// modifier are both seen, and taking one or both away leaves the rest.
proof fn lemma_parts_of_full_locale(lang: Seq<char>, country: Seq<char>, modifier: Seq<char>)
    requires
        country.len() > 0,
        free_of(lang, '_'),
        free_of(lang, '@'),
        free_of(country, '@'),
        free_of(country, '\n'),
        free_of(modifier, '\n'),
    ensures
        has_country_and_modifier(full_locale(lang, country, modifier)),
        without_modifier(full_locale(lang, country, modifier)) == lang + seq!['_'] + country,
        without_country(full_locale(lang, country, modifier)) == lang + seq!['@'] + modifier,
        language(full_locale(lang, country, modifier)) == lang,
        language(full_locale(lang, country, modifier)) != full_locale(lang, country, modifier),
{
    let s = full_locale(lang, country, modifier);
    let n = lang.len() as int;
    let at = n + 1 + country.len();
    assert(s.len() == at + 1 + modifier.len());
    assert forall|j: int| 0 <= j < n implies s[j] == lang[j] by {}
    assert(s[n] == '_');
    assert forall|j: int| 0 <= j < country.len() implies s[n + 1 + j] == country[j] by {}
    assert(s[at] == '@');
    assert forall|j: int| 0 <= j < modifier.len() implies s[at + 1 + j] == modifier[j] by {}
    // the country
    assert(s[n + 1] == country[0]);
    lemma_run_start(s, '_', n);
    let after_lead = s.skip(n + 1);
    assert forall|j: int| 0 <= j < country.len() implies #[trigger] after_lead[j] != '@' by {
        assert(after_lead[j] == country[j]);
    }
    assert(after_lead[country.len() as int] == s[at]);
    lemma_find(after_lead, '@', country.len() as int);
    assert(s.take(n) + s.skip(at) =~= lang + seq!['@'] + modifier);
    // the modifier
    assert forall|j: int| 0 <= j < at implies #[trigger] s[j] != '@' by {
        if j < n {
            assert(s[j] == lang[j]);
        } else if j > n {
            assert(s[n + 1 + (j - n - 1)] == country[j - n - 1]);
        }
    }
    lemma_find(s, '@', at);
    let after_at = s.skip(at + 1);
    assert forall|j: int| 0 <= j < after_at.len() implies #[trigger] after_at[j] != '\n' by {
        assert(after_at[j] == modifier[j]);
    }
    lemma_find(after_at, '\n', after_at.len() as int);
    assert(s.take(at) + s.skip(at + 1 + after_at.len()) =~= lang + seq!['_'] + country);
    // the language
    assert forall|j: int| 0 <= j < n implies #[trigger] s[j] != '_' by {
        assert(s[j] == lang[j]);
    }
    lemma_find(s, '_', n);
    assert forall|j: int| 0 <= j < after_lead.len() implies #[trigger] after_lead[j] != '\n' by {
        if j < country.len() {
            assert(after_lead[j] == country[j]);
        } else if j > country.len() {
            assert(after_lead[j] == modifier[j - country.len() - 1]);
        }
    }
    lemma_find(after_lead, '\n', after_lead.len() as int);
    assert(s.take(n) + s.skip(n + 1 + after_lead.len()) =~= lang);
}

/// For every locale `lang_COUNTRY@MODIFIER` the keys are, in this order,
/// `lang_COUNTRY@MODIFIER`, `lang_COUNTRY`, `lang@MODIFIER` and `lang`. The
/// language is any text without `_`, `@` and `.`, the country any text but
/// the empty one without `@`, `.` and line feed, the modifier any text without
/// `.` and line feed.
pub proof fn lemma_keys_of_full_locale(lang: Seq<char>, country: Seq<char>, modifier: Seq<char>)
    requires
        country.len() > 0,
        free_of(lang, '_'),
        free_of(lang, '@'),
        free_of(lang, '.'),
        free_of(country, '@'),
        free_of(country, '.'),
        free_of(country, '\n'),
        free_of(modifier, '.'),
        free_of(modifier, '\n'),
    ensures
        locale_keys(full_locale(lang, country, modifier)) == four_keys(lang, country, modifier),
{
    let s = full_locale(lang, country, modifier);
    let n = lang.len() as int;
    let at = n + 1 + country.len();
    assert forall|j: int| 0 <= j < s.len() implies #[trigger] s[j] != '.' by {
        if j < n {
            assert(s[j] == lang[j]);
        } else if n < j < at {
            assert(s[j] == country[j - n - 1]);
        } else if j > at {
            assert(s[j] == modifier[j - at - 1]);
        }
    }
    lemma_run_start(s, '.', s.len() as int);
    lemma_parts_of_full_locale(lang, country, modifier);
    assert(locale_keys(s) =~= four_keys(lang, country, modifier));
}

/// An encoding is left out first: for every locale
/// `lang_COUNTRY.ENCODING@MODIFIER` the keys are those of
/// `lang_COUNTRY@MODIFIER`. The encoding is any text but the empty one
/// without `@`; after it the modifier may hold a `.` too.
pub proof fn lemma_keys_without_encoding(
    lang: Seq<char>,
    country: Seq<char>,
    encoding: Seq<char>,
    modifier: Seq<char>,
)
    requires
        country.len() > 0,
        encoding.len() > 0,
        free_of(lang, '_'),
        free_of(lang, '@'),
        free_of(lang, '.'),
        free_of(country, '@'),
        free_of(country, '.'),
        free_of(country, '\n'),
        free_of(encoding, '@'),
        free_of(modifier, '\n'),
    ensures
        locale_keys(encoded_locale(lang, country, encoding, modifier)) == four_keys(
            lang,
            country,
            modifier,
        ),
{
    let g = encoded_locale(lang, country, encoding, modifier);
    let n = lang.len() as int;
    let dot = n + 1 + country.len();
    let at = dot + 1 + encoding.len();
    assert(g.len() == at + 1 + modifier.len());
    assert(g[dot] == '.');
    assert(g[dot + 1] == encoding[0]);
    assert forall|j: int| 0 <= j < dot implies #[trigger] g[j] != '.' by {
        if j < n {
            assert(g[j] == lang[j]);
        } else if j > n {
            assert(g[j] == country[j - n - 1]);
        }
    }
    lemma_run_start(g, '.', dot);
    let after_dot = g.skip(dot + 1);
    assert forall|j: int| 0 <= j < encoding.len() implies #[trigger] after_dot[j] != '@' by {
        assert(after_dot[j] == encoding[j]);
    }
    assert(after_dot[encoding.len() as int] == g[at]);
    lemma_find(after_dot, '@', encoding.len() as int);
    assert(g.take(dot) + g.skip(at) =~= full_locale(lang, country, modifier));
    lemma_parts_of_full_locale(lang, country, modifier);
    assert(locale_keys(g) =~= four_keys(lang, country, modifier));
}

/// A text without `.` has no encoding to leave out.
proof fn lemma_no_encoding(s: Seq<char>)
    requires
        free_of(s, '.'),
    ensures
        without_encoding(s) == s,
{
    lemma_run_start(s, '.', s.len() as int);
}

/// For every locale that is a language alone the one key is the language.
/// The language is any text without `_`, `@` and `.`.
pub proof fn lemma_keys_of_language(lang: Seq<char>)
    requires
        free_of(lang, '_'),
        free_of(lang, '@'),
        free_of(lang, '.'),
    ensures
        locale_keys(lang) == seq![lang],
{
    lemma_no_encoding(lang);
    lemma_run_start(lang, '_', lang.len() as int);
    lemma_find(lang, '_', lang.len() as int);
    lemma_find(lang, '@', lang.len() as int);
    assert(locale_keys(lang) =~= seq![lang]);
}

/// For every locale `lang_COUNTRY` the keys are `lang_COUNTRY` and `lang`.
/// The language is any text without `_`, `@` and `.`, the country any text
/// without `@`, `.` and line feed.
pub proof fn lemma_keys_of_language_and_country(lang: Seq<char>, country: Seq<char>)
    requires
        free_of(lang, '_'),
        free_of(lang, '@'),
        free_of(lang, '.'),
        free_of(country, '@'),
        free_of(country, '.'),
        free_of(country, '\n'),
    ensures
        locale_keys(lang + seq!['_'] + country) == seq![lang + seq!['_'] + country, lang],
{
    let s = lang + seq!['_'] + country;
    let n = lang.len() as int;
    assert forall|j: int| 0 <= j < s.len() implies #[trigger] s[j] != '.' && s[j] != '@' by {
        if j < n {
            assert(s[j] == lang[j]);
        } else if j > n {
            assert(s[j] == country[j - n - 1]);
        }
    }
    lemma_no_encoding(s);
    // no modifier
    lemma_find(s, '@', s.len() as int);
    if country.len() > 0 {
        assert(s[n + 1] == country[0]);
        lemma_run_start(s, '_', n);
        let after_lead = s.skip(n + 1);
        assert forall|j: int| 0 <= j < after_lead.len() implies #[trigger] after_lead[j] != '@' by {
            assert(after_lead[j] == s[j + n + 1]);
        }
        lemma_find(after_lead, '@', after_lead.len() as int);
    } else {
        lemma_run_start(s, '_', s.len() as int);
    }
    assert(!has_country_and_modifier(s));
    // the language
    assert forall|j: int| 0 <= j < n implies #[trigger] s[j] != '_' by {
        assert(s[j] == lang[j]);
    }
    assert(s[n] == '_');
    lemma_find(s, '_', n);
    let rest = s.skip(n + 1);
    assert forall|j: int| 0 <= j < rest.len() implies #[trigger] rest[j] != '\n' by {
        assert(rest[j] == country[j]);
    }
    lemma_find(rest, '\n', rest.len() as int);
    assert(s.take(n) + s.skip(n + 1 + rest.len()) =~= lang);
    assert(language(s) == lang);
    assert(locale_keys(s) =~= seq![s, lang]);
}

/// For every locale `lang@MODIFIER` the keys are `lang@MODIFIER` and `lang`.
/// The language is any text without `_`, `@` and `.`, the modifier any text
/// without `_`, `.` and line feed.
pub proof fn lemma_keys_of_language_and_modifier(lang: Seq<char>, modifier: Seq<char>)
    requires
        free_of(lang, '_'),
        free_of(lang, '@'),
        free_of(lang, '.'),
        free_of(modifier, '_'),
        free_of(modifier, '.'),
        free_of(modifier, '\n'),
    ensures
        locale_keys(lang + seq!['@'] + modifier) == seq![lang + seq!['@'] + modifier, lang],
{
    let s = lang + seq!['@'] + modifier;
    let n = lang.len() as int;
    assert forall|j: int| 0 <= j < s.len() implies #[trigger] s[j] != '.' && s[j] != '_' by {
        if j < n {
            assert(s[j] == lang[j]);
        } else if j > n {
            assert(s[j] == modifier[j - n - 1]);
        }
    }
    lemma_no_encoding(s);
    lemma_run_start(s, '_', s.len() as int);
    assert(!has_country_and_modifier(s));
    // the language
    lemma_find(s, '_', s.len() as int);
    assert forall|j: int| 0 <= j < n implies #[trigger] s[j] != '@' by {
        assert(s[j] == lang[j]);
    }
    assert(s[n] == '@');
    lemma_find(s, '@', n);
    let rest = s.skip(n + 1);
    assert forall|j: int| 0 <= j < rest.len() implies #[trigger] rest[j] != '\n' by {
        assert(rest[j] == modifier[j]);
    }
    lemma_find(rest, '\n', rest.len() as int);
    assert(s.take(n) + s.skip(n + 1 + rest.len()) =~= lang);
    assert(language(s) == lang);
    assert(locale_keys(s) =~= seq![s, lang]);
}

} // verus!
