//! Helpers shared by the commands and the display channels: ordering by date, pages of text,
//! simplified text for searches.
use unicode_normalization::UnicodeNormalization;
use vstd::prelude::*;
use vstd::seq_lib::{to_multiset_build, to_multiset_insert};
use vstd::string::StringExecFns;
use vstd::utf8::encode_utf8;

verus! {

/// What `str::to_lowercase` makes of a text.
pub uninterp spec fn lower_of(s: Seq<char>) -> Seq<char>;

/// What `unicode_normalization`'s `nfd` makes of a text: its canonical decomposition.
pub uninterp spec fn nfd_of(s: Seq<char>) -> Seq<char>;

/// What `char::is_alphanumeric` says of a character.
pub uninterp spec fn alphanumeric(c: char) -> bool;

/// Relies on `str::chars`: the characters of the text, in order.
#[verifier::external_body]
fn chars_of(s: &str) -> (r: Vec<char>)
    ensures
        r@ == s@,
{
    s.chars().collect()
}

/// Relies on `String::from_iter`: the text made of the characters, in order.
#[verifier::external_body]
pub(crate) fn string_of(v: &Vec<char>) -> (r: String)
    ensures
        r@ == v@,
{
    v.iter().collect()
}

/// Relies on `str::to_lowercase`, which depends on the characters alone.
#[verifier::external_body]
fn lowercase(v: &Vec<char>) -> (r: Vec<char>)
    ensures
        r@ == lower_of(v@),
{
    v.iter().collect::<String>().to_lowercase().chars().collect()
}

/// Relies on `unicode_normalization::UnicodeNormalization::nfd`, which depends on the
/// characters alone.
#[verifier::external_body]
fn decompose(v: &Vec<char>) -> (r: Vec<char>)
    ensures
        r@ == nfd_of(v@),
{
    v.iter().collect::<String>().nfd().collect()
}

/// Relies on `char::is_alphanumeric`, which depends on the character alone.
#[verifier::external_body]
fn is_alphanumeric(c: char) -> (r: bool)
    ensures
        r == alphanumeric(c),
{
    c.is_alphanumeric()
}

/// A backquote becomes an apostrophe, and a narrow no-break space a plain space.
pub open spec fn simple_char(c: char) -> char {
    if c == '`' {
        '\''
    } else if c == '\u{202f}' {
        ' '
    } else {
        c
    }
}

/// A character that a simplified text keeps: an ASCII character or an alphanumeric one.
pub open spec fn basic_char(c: char) -> bool {
    (c as u32) < 128 || alphanumeric(c)
}

/// The characters of `s` that [`basic_char`] keeps, in order.
pub open spec fn basic_chars(s: Seq<char>) -> Seq<char>
    decreases s.len(),
{
    if s.len() == 0 {
        s
    } else if basic_char(s.last()) {
        basic_chars(s.drop_last()).push(s.last())
    } else {
        basic_chars(s.drop_last())
    }
}

/// The simplified form of a text: lower case, backquotes and narrow no-break spaces replaced,
/// decomposed, and stripped of the characters that are neither ASCII nor alphanumeric (the
/// diacritics that the decomposition split off).
pub open spec fn basic_form(s: Seq<char>) -> Seq<char> {
    basic_chars(nfd_of(lower_of(s).map_values(|c: char| simple_char(c))))
}

/// Replaces backquotes with apostrophes and narrow no-break spaces with plain spaces, in a text
/// already in lower case.
pub fn simplify_chars(lowered: &Vec<char>) -> (r: Vec<char>)
    ensures
        r@ == lowered@.map_values(|c: char| simple_char(c)),
{
    let mut r: Vec<char> = Vec::new();
    let mut i: usize = 0;
    while i < lowered.len()
        invariant
            0 <= i <= lowered@.len(),
            r@ == lowered@.subrange(0, i as int).map_values(|c: char| simple_char(c)),
        decreases lowered@.len() - i,
    {
        let c = lowered[i];
        let d = if c == '`' {
            '\''
        } else if c == '\u{202f}' {
            ' '
        } else {
            c
        };
        r.push(d);
        i = i + 1;
        assert(r@ =~= lowered@.subrange(0, i as int).map_values(|c: char| simple_char(c)));
    }
    assert(lowered@.subrange(0, i as int) =~= lowered@);
    r
}

/// Keeps, from a decomposed text, the ASCII and alphanumeric characters.
pub fn keep_basic_chars(decomposed: &Vec<char>) -> (r: Vec<char>)
    ensures
        r@ == basic_chars(decomposed@),
{
    let mut r: Vec<char> = Vec::new();
    let mut i: usize = 0;
    while i < decomposed.len()
        invariant
            0 <= i <= decomposed@.len(),
            r@ == basic_chars(decomposed@.subrange(0, i as int)),
        decreases decomposed@.len() - i,
    {
        let c = decomposed[i];
        proof {
            assert(decomposed@.subrange(0, i as int + 1).drop_last() =~= decomposed@.subrange(0, i as int));
        }
        if (c as u32) < 128 || is_alphanumeric(c) {
            r.push(c);
        }
        i = i + 1;
    }
    assert(decomposed@.subrange(0, i as int) =~= decomposed@);
    r
}

/// The simplified form of a text, as characters.
fn basic_form_chars(s: &Vec<char>) -> (r: Vec<char>)
    ensures
        r@ == basic_form(s@),
{
    let lowered = lowercase(s);
    let simple = simplify_chars(&lowered);
    let decomposed = decompose(&simple);
    keep_basic_chars(&decomposed)
}

/// Simplifies a text for comparisons: lower case, backquotes replaced with apostrophes, narrow
/// no-break spaces with spaces, and diacritics and characters that are neither ASCII nor
/// alphanumeric removed.
pub fn basicize(s: &str) -> (r: String)
    ensures
        r@ == basic_form(s@),
{
    let chars = chars_of(s);
    let basic = basic_form_chars(&chars);
    string_of(&basic)
}

/// The pieces of `s` between the separators `sep`, as `str::split(sep)` gives them: there is
/// always at least one, and consecutive separators give empty pieces.
pub open spec fn pieces_of(s: Seq<char>, sep: char) -> Seq<Seq<char>>
    decreases s.len(),
{
    if s.len() == 0 {
        seq![Seq::<char>::empty()]
    } else {
        let w = pieces_of(s.drop_last(), sep);
        if s.last() == sep {
            w.push(Seq::<char>::empty())
        } else {
            w.update(w.len() - 1, w.last().push(s.last()))
        }
    }
}

/// The words of `s` between single spaces.
pub open spec fn words_of(s: Seq<char>) -> Seq<Seq<char>> {
    pieces_of(s, ' ')
}

/// A text always has at least one piece.
pub proof fn lemma_pieces_nonempty(s: Seq<char>, sep: char)
    ensures
        pieces_of(s, sep).len() >= 1,
    decreases s.len(),
{
    if s.len() > 0 {
        lemma_pieces_nonempty(s.drop_last(), sep);
    }
}

/// `needle` occurs in `hay` as a contiguous part.
pub open spec fn occurs_in(needle: Seq<char>, hay: Seq<char>) -> bool {
    exists|i: int| 0 <= i && i + needle.len() <= hay.len() && #[trigger] hay.subrange(i, i + needle.len()) == needle
}

/// The word `w`, simplified, occurs in one of the words `nw`, simplified.
pub open spec fn word_found(w: Seq<char>, nw: Seq<Seq<char>>) -> bool {
    exists|j: int| 0 <= j < nw.len() && occurs_in(basic_form(w), basic_form(#[trigger] nw[j]))
}

/// A search criterion matches a name when each word of the criterion, simplified, occurs in
/// some word of the name, simplified.
pub open spec fn name_matches(criterion: Seq<char>, name: Seq<char>) -> bool {
    let cw = words_of(criterion);
    forall|i: int| 0 <= i < cw.len() ==> word_found(#[trigger] cw[i], words_of(name))
}

/// Splits a text at each separator `sep`, as [`pieces_of`] says.
pub fn split_on(s: &Vec<char>, sep: char) -> (r: Vec<Vec<char>>)
    ensures
        r@.map_values(|w: Vec<char>| w@) == pieces_of(s@, sep),
{
    let mut words: Vec<Vec<char>> = Vec::new();
    let mut cur: Vec<char> = Vec::new();
    let mut i: usize = 0;
    while i < s.len()
        invariant
            0 <= i <= s@.len(),
            words@.map_values(|w: Vec<char>| w@).push(cur@) == pieces_of(s@.subrange(0, i as int), sep),
        decreases s@.len() - i,
    {
        let c = s[i];
        proof {
            assert(s@.subrange(0, i as int + 1).drop_last() =~= s@.subrange(0, i as int));
            lemma_pieces_nonempty(s@.subrange(0, i as int), sep);
        }
        let ghost before = words@.map_values(|w: Vec<char>| w@).push(cur@);
        if c == sep {
            words.push(cur);
            cur = Vec::new();
            assert(words@.map_values(|w: Vec<char>| w@).push(cur@) =~= before.push(Seq::<char>::empty()));
        } else {
            cur.push(c);
            assert(words@.map_values(|w: Vec<char>| w@).push(cur@) =~= before.update(before.len() - 1, before.last().push(c)));
        }
        i = i + 1;
    }
    assert(s@.subrange(0, i as int) =~= s@);
    let ghost before = words@.map_values(|w: Vec<char>| w@).push(cur@);
    words.push(cur);
    assert(words@.map_values(|w: Vec<char>| w@) =~= before);
    words
}

/// Whether `needle` occurs in `hay`.
pub fn occurs(needle: &Vec<char>, hay: &Vec<char>) -> (r: bool)
    ensures
        r == occurs_in(needle@, hay@),
{
    if needle.len() > hay.len() {
        return false;
    }
    if needle.len() == 0 {
        assert(hay@.subrange(0, 0 + needle@.len() as int) =~= needle@);
        return true;
    }
    let n = hay.len();
    let last = n - needle.len();
    let mut i: usize = 0;
    while i <= last
        invariant
            n == hay@.len(),
            needle@.len() >= 1,
            last == hay@.len() - needle@.len(),
            0 <= i <= last + 1,
            forall|a: int| 0 <= a < i ==> #[trigger] hay@.subrange(a, a + needle@.len()) != needle@,
        decreases last + 1 - i,
    {
        let mut j: usize = 0;
        while j < needle.len() && hay[i + j] == needle[j]
            invariant
                n == hay@.len(),
                last == hay@.len() - needle@.len(),
                0 <= i <= last,
                0 <= j <= needle@.len(),
                forall|b: int| 0 <= b < j ==> hay@[i + b] == needle@[b],
            decreases needle@.len() - j,
        {
            j = j + 1;
        }
        if j == needle.len() {
            assert(hay@.subrange(i as int, i + needle@.len()) =~= needle@);
            return true;
        }
        assert(hay@.subrange(i as int, i + needle@.len())[j as int] != needle@[j as int]);
        i = i + 1;
    }
    false
}

/// The simplified forms of the words of a text.
fn basic_words(s: &Vec<char>) -> (r: Vec<Vec<char>>)
    ensures
        r@.len() == words_of(s@).len(),
        forall|i: int| 0 <= i < r@.len() ==> (#[trigger] r@[i])@ == basic_form(words_of(s@)[i]),
{
    let words = split_on(s, ' ');
    let mut r: Vec<Vec<char>> = Vec::new();
    let mut i: usize = 0;
    while i < words.len()
        invariant
            words@.map_values(|w: Vec<char>| w@) == words_of(s@),
            0 <= i <= words@.len(),
            r@.len() == i,
            forall|a: int| 0 <= a < i ==> (#[trigger] r@[a])@ == basic_form(words@[a]@),
        decreases words@.len() - i,
    {
        r.push(basic_form_chars(&words[i]));
        i = i + 1;
    }
    proof {
        assert forall|a: int| 0 <= a < r@.len() implies (#[trigger] r@[a])@ == basic_form(words_of(s@)[a]) by {
            assert(words@.map_values(|w: Vec<char>| w@)[a] == words@[a]@);
        }
    }
    r
}

/// Whether the search criterion `criterion` matches the name `name`, as [`name_matches`] says.
pub fn matches_name(criterion: &str, name: &str) -> (r: bool)
    ensures
        r == name_matches(criterion@, name@),
{
    let cw = basic_words(&chars_of(criterion));
    let nw = basic_words(&chars_of(name));
    let ghost cws = words_of(criterion@);
    let ghost nws = words_of(name@);
    let mut i: usize = 0;
    while i < cw.len()
        invariant
            cws == words_of(criterion@),
            nws == words_of(name@),
            cw@.len() == cws.len(),
            nw@.len() == nws.len(),
            forall|a: int| 0 <= a < cw@.len() ==> (#[trigger] cw@[a])@ == basic_form(cws[a]),
            forall|a: int| 0 <= a < nw@.len() ==> (#[trigger] nw@[a])@ == basic_form(nws[a]),
            0 <= i <= cw@.len(),
            forall|a: int| 0 <= a < i ==> word_found(#[trigger] cws[a], nws),
        decreases cw@.len() - i,
    {
        let mut j: usize = 0;
        let mut found = false;
        while j < nw.len()
            invariant
                cws == words_of(criterion@),
                nws == words_of(name@),
                nw@.len() == nws.len(),
                forall|a: int| 0 <= a < nw@.len() ==> (#[trigger] nw@[a])@ == basic_form(nws[a]),
                0 <= i < cw@.len(),
                cw@[i as int]@ == basic_form(cws[i as int]),
                0 <= j <= nw@.len(),
                found ==> word_found(cws[i as int], nws),
                !found ==> forall|b: int| 0 <= b < j ==> !occurs_in(basic_form(cws[i as int]), basic_form(#[trigger] nws[b])),
            decreases nw@.len() - j,
        {
            if occurs(&cw[i], &nw[j]) {
                found = true;
                j = nw.len();
            } else {
                j = j + 1;
            }
        }
        if !found {
            assert(!word_found(cws[i as int], nws));
            return false;
        }
        i = i + 1;
    }
    true
}

/// The value of a decimal number as `u64::from_str` reads it: an optional `+` followed by at
/// least one ASCII digit, with a value that fits in a `u64`.
pub open spec fn decimal_u64(s: Seq<char>) -> Option<u64> {
    let d = if s.len() > 0 && s[0] == '+' { s.drop_first() } else { s };
    if d.len() > 0 && all_digits(d) && digits_value(d) <= u64::MAX {
        Some(digits_value(d) as u64)
    } else {
        None
    }
}

/// The value of a sequence of decimal digits.
pub open spec fn digits_value(d: Seq<char>) -> nat
    decreases d.len(),
{
    if d.len() == 0 {
        0
    } else {
        digits_value(d.drop_last()) * 10 + ((d.last() as nat) - ('0' as nat)) as nat
    }
}

/// `d` is made of ASCII digits only.
pub open spec fn all_digits(d: Seq<char>) -> bool {
    forall|i: int| 0 <= i < d.len() ==> '0' <= #[trigger] d[i] <= '9'
}

/// A prefix of a sequence of digits is worth no more than the whole sequence.
proof fn lemma_digits_prefix(d: Seq<char>, k: int)
    requires
        all_digits(d),
        0 <= k <= d.len(),
    ensures
        digits_value(d.subrange(0, k)) <= digits_value(d),
    decreases d.len(),
{
    if k < d.len() {
        assert(all_digits(d.drop_last()));
        lemma_digits_prefix(d.drop_last(), k);
        assert(d.drop_last().subrange(0, k) =~= d.subrange(0, k));
        assert(d.last() == d[d.len() - 1]);
    } else {
        assert(d.subrange(0, k) =~= d);
    }
}

/// Reads a decimal number as `u64::from_str` does: an optional `+` followed by at least one
/// ASCII digit, with a value that fits in a `u64`; anything else gives `None`.
pub fn parse_u64(s: &str) -> (r: Option<u64>)
    ensures
        r == decimal_u64(s@),
{
    let chars = chars_of(s);
    let n = chars.len();
    let start: usize = if n > 0 && chars[0] == '+' { 1 } else { 0 };
    let ghost d = if s@.len() > 0 && s@[0] == '+' { s@.drop_first() } else { s@ };
    assert(d =~= chars@.subrange(start as int, n as int));
    if start == n {
        return None;
    }
    let mut value: u64 = 0;
    let mut i: usize = start;
    while i < n
        invariant
            n == chars@.len(),
            d == (if s@.len() > 0 && s@[0] == '+' { s@.drop_first() } else { s@ }),
            d == chars@.subrange(start as int, n as int),
            start <= i <= n,
            all_digits(chars@.subrange(start as int, i as int)),
            value as nat == digits_value(chars@.subrange(start as int, i as int)),
        decreases n - i,
    {
        let c = chars[i];
        let prefix = Ghost(chars@.subrange(start as int, i as int + 1));
        proof {
            assert(prefix@.drop_last() =~= chars@.subrange(start as int, i as int));
            assert(prefix@.last() == c);
        }
        if !('0' <= c && c <= '9') {
            proof {
                assert(d[i - start] == c);
            }
            return None;
        }
        let digit = (c as u32 - '0' as u32) as u64;
        assert(digit as nat == (c as nat) - ('0' as nat));
        assert(digits_value(prefix@) == value * 10 + digit);
        if value > 1844674407370955161 || (value == 1844674407370955161 && digit > 5) {
            proof {
                assert(digits_value(prefix@) > u64::MAX) by (nonlinear_arith)
                    requires
                        digits_value(prefix@) == value * 10 + digit,
                        value > 1844674407370955161 || (value == 1844674407370955161 && digit > 5),
                ;
                if all_digits(d) {
                    assert(d.subrange(0, i - start + 1) =~= prefix@);
                    lemma_digits_prefix(d, i - start + 1);
                }
            }
            return None;
        }
        assert(value * 10 + digit <= u64::MAX) by (nonlinear_arith)
            requires
                value < 1844674407370955161 || (value == 1844674407370955161 && digit <= 5),
                digit < 10,
        ;
        value = value * 10 + digit;
        i = i + 1;
        proof {
            assert forall|j: int| 0 <= j < prefix@.len() implies '0' <= #[trigger] prefix@[j] <= '9' by {
                if j < prefix@.len() - 1 {
                    assert(prefix@[j] == chars@.subrange(start as int, i - 1)[j]);
                }
            }
        }
    }
    assert(chars@.subrange(start as int, i as int) =~= d);
    Some(value)
}

/// Length of a text in bytes, as `str::len` returns it.
pub open spec fn byte_len(s: Seq<char>) -> usize {
    encode_utf8(s).len() as usize
}

/// The pages that the texts `entries` fill, in order: each text is appended to the last page,
/// unless the page would then be longer than `limit` bytes, in which case it starts a new page.
pub open spec fn pages_of(entries: Seq<Seq<char>>, limit: nat) -> Seq<Seq<char>>
    decreases entries.len(),
{
    if entries.len() == 0 {
        Seq::empty()
    } else {
        let pages = pages_of(entries.drop_last(), limit);
        let s = entries.last();
        if pages.len() == 0 {
            seq![s]
        } else if byte_len(pages.last()) + byte_len(s) > limit {
            pages.push(s)
        } else {
            pages.update(pages.len() - 1, pages.last() + s)
        }
    }
}

/// Gathers texts into pages of at most `char_limit` bytes, as [`pages_of`] says. A text longer
/// than the limit gets a page of its own.
pub fn paginate(entries: Vec<String>, char_limit: usize) -> (r: Vec<String>)
    ensures
        r@.map_values(|p: String| p@) == pages_of(entries@.map_values(|e: String| e@), char_limit as nat),
{
    let ghost texts = entries@.map_values(|e: String| e@);
    let mut pages: Vec<String> = Vec::new();
    let mut i: usize = 0;
    let n = entries.len();
    let mut rest = entries;
    while i < n
        invariant
            n == texts.len(),
            0 <= i <= n,
            rest@.map_values(|e: String| e@) == texts.subrange(i as int, n as int),
            pages@.map_values(|p: String| p@) == pages_of(texts.subrange(0, i as int), char_limit as nat),
        decreases n - i,
    {
        let ghost before = pages@.map_values(|p: String| p@);
        proof {
            assert(texts.subrange(0, i as int + 1).drop_last() =~= texts.subrange(0, i as int));
            assert(rest@.map_values(|e: String| e@).len() == rest@.len());
            assert(rest@.map_values(|e: String| e@)[0] == texts[i as int]);
            assert(rest@[0]@ == texts[i as int]);
            assert(texts.subrange(0, i as int + 1).last() == texts[i as int]);
        }
        let ghost old_rest = rest@;
        let s = rest.remove(0);
        if pages.len() == 0 {
            pages.push(s);
            assert(pages@.map_values(|p: String| p@) =~= seq![texts[i as int]]);
        } else {
            let last = pages.len() - 1;
            let last_len = pages[last].as_str().len();
            let s_len = s.as_str().len();
            assert(before[last as int] == pages@[last as int]@);
            assert(last_len == byte_len(before.last()));
            assert(s_len == byte_len(texts[i as int]));
            if s_len > char_limit || last_len > char_limit - s_len {
                pages.push(s);
                assert(pages@.map_values(|p: String| p@) =~= before.push(texts[i as int]));
            } else {
                let page = pages.remove(last);
                let joined = page.concat(s.as_str());
                pages.push(joined);
                assert(pages@.map_values(|p: String| p@) =~= before.update(before.len() - 1, before.last() + texts[i as int]));
            }
        }
        proof {
            assert forall|j: int| 0 <= j < rest@.len() implies rest@[j]@ == texts[i + 1 + j] by {
                assert(rest@[j] == old_rest[j + 1]);
                assert(old_rest.map_values(|e: String| e@)[j + 1] == texts.subrange(i as int, n as int)[j + 1]);
            }
        }
        i = i + 1;
        assert(rest@.map_values(|e: String| e@) =~= texts.subrange(i as int, n as int));
    }
    assert(texts.subrange(0, i as int) =~= texts);
    pages
}

/// Makes pages of at most `char_limit` bytes listing the objects, each written by
/// `string_func`, as [`paginate`] gathers them.
pub fn create_paged_list<T, F: Fn(&T) -> String>(objects: Vec<T>, string_func: F, char_limit: usize) -> (r: Vec<String>)
    requires
        forall|i: int| 0 <= i < objects@.len() ==> string_func.requires((&objects@[i],)),
    ensures
        exists|texts: Seq<String>| {
            &&& texts.len() == objects@.len()
            &&& forall|i: int| 0 <= i < objects@.len() ==> string_func.ensures((&objects@[i],), #[trigger] texts[i])
            &&& r@.map_values(|p: String| p@) == pages_of(texts.map_values(|e: String| e@), char_limit as nat)
        },
{
    let mut texts: Vec<String> = Vec::new();
    let mut i: usize = 0;
    while i < objects.len()
        invariant
            0 <= i <= objects@.len(),
            texts@.len() == i,
            forall|j: int| 0 <= j < objects@.len() ==> string_func.requires((&objects@[j],)),
            forall|j: int| 0 <= j < i ==> string_func.ensures((&objects@[j],), #[trigger] texts@[j]),
        decreases objects@.len() - i,
    {
        let text = string_func(&objects[i]);
        texts.push(text);
        i = i + 1;
    }
    let ghost outs = texts@;
    let r = paginate(texts, char_limit);
    assert(outs.len() == objects@.len());
    r
}

/// What `chrono` makes of a date written `%d/%m/%Y`: the number of seconds from the Unix epoch
/// to the start of that day in UTC, or `None` when the text is not such a date.
pub uninterp spec fn day_start_of(s: Seq<char>) -> Option<i64>;

/// Relies on `chrono::NaiveDate::parse_from_str` with the format `%d/%m/%Y`; the date it reads
/// is converted to the seconds from the Unix epoch to its midnight in UTC.
#[verifier::external_body]
fn chrono_day_start(s: &str) -> (r: Option<i64>)
    ensures
        r == day_start_of(s@),
{
    match chrono::NaiveDate::parse_from_str(s, "%d/%m/%Y") {
        Ok(d) => Some(d.and_time(chrono::NaiveTime::MIN).and_utc().timestamp()),
        Err(_) => None,
    }
}

/// Reads a date written `%d/%m/%Y` as the number of seconds from the Unix epoch to the start of
/// that day in UTC; `None` when the text is not such a date.
pub fn parse_date(date: &str) -> (r: Option<i64>)
    ensures
        r == day_start_of(date@),
{
    chrono_day_start(date)
}

/// Dates never increase along `s`: the most recent comes first.
pub open spec fn sorted_by_date_desc(s: Seq<(u64, i64)>) -> bool {
    forall|a: int, b: int| 0 <= a < b < s.len() ==> s[a].1 >= s[b].1
}

/// Sorts identifiers with their dates from the most recent to the oldest. Entries with equal
/// dates keep their order.
pub fn sort_by_date(v: Vec<(u64, i64)>) -> (r: Vec<(u64, i64)>)
    ensures
        sorted_by_date_desc(r@),
        r@.to_multiset() == v@.to_multiset(),
{
    let mut r: Vec<(u64, i64)> = Vec::new();
    let mut i: usize = 0;
    assert(r@ =~= v@.subrange(0, 0));
    while i < v.len()
        invariant
            0 <= i <= v@.len(),
            sorted_by_date_desc(r@),
            r@.to_multiset() == v@.subrange(0, i as int).to_multiset(),
        decreases v@.len() - i,
    {
        let x = v[i];
        let mut j: usize = 0;
        while j < r.len() && r[j].1 >= x.1
            invariant
                0 <= j <= r@.len(),
                forall|a: int| 0 <= a < j ==> r@[a].1 >= x.1,
            decreases r@.len() - j,
        {
            j = j + 1;
        }
        let ghost before = r@;
        r.insert(j, x);
        proof {
            assert forall|a: int, b: int| 0 <= a < b < r@.len() implies r@[a].1 >= r@[b].1 by {
                if b < j {
                } else if b == j {
                } else if a < j {
                    assert(r@[b] == before[b - 1]);
                } else if a == j {
                    assert(r@[b] == before[b - 1]);
                    assert(before[j as int].1 < x.1);
                } else {
                    assert(r@[a] == before[a - 1]);
                    assert(r@[b] == before[b - 1]);
                }
            }
            assert(v@.subrange(0, i as int + 1) =~= v@.subrange(0, i as int).push(x));
            to_multiset_insert(before, j as int, x);
            to_multiset_build(v@.subrange(0, i as int), x);
            assert(r@.to_multiset() =~= v@.subrange(0, i as int + 1).to_multiset());
        }
        i = i + 1;
    }
    assert(v@.subrange(0, i as int) =~= v@);
    r
}

} // verus!
