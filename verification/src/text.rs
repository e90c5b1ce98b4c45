//! Small verified helpers for working with text as sequences of characters.

use vstd::prelude::*;

verus! {

broadcast use vstd::string::group_string_axioms;

/// The characters of a string slice, in order.
pub fn chars_of(s: &str) -> (r: Vec<char>)
    ensures
        r@ == s@,
{
    let mut out: Vec<char> = Vec::new();
    for c in it: s.chars()
        invariant
            out@ == it.seq().take(it.index()),
            it.seq() == s@,
    {
        out.push(c);
    }
    out
}


/// Appends one character to a string (`String::push`).
///
/// Trusted: the standard library documents `push` as appending the character to the end.
#[verifier::external_body]
pub(crate) fn push_char(s: &mut String, c: char)
    ensures
        final(s)@ == old(s)@.push(c),
{
    s.push(c)
}

/// A string holding exactly the given characters.
pub fn string_of(chars: &[char]) -> (r: String)
    ensures
        r@ == chars@,
{
    let mut out = String::new();
    let mut i: usize = 0;
    while i < chars.len()
        invariant
            i <= chars@.len(),
            out@ == chars@.take(i as int),
        decreases chars@.len() - i,
    {
        push_char(&mut out, chars[i]);
        i = i + 1;
        assert(out@ =~= chars@.take(i as int));
    }
    assert(chars@.take(chars@.len() as int) =~= chars@);
    out
}

/// Appends characters to a string.
pub fn push_chars(s: &mut String, chars: &[char])
    ensures
        final(s)@ == old(s)@ + chars@,
{
    let mut i: usize = 0;
    while i < chars.len()
        invariant
            i <= chars@.len(),
            s@ == old(s)@ + chars@.take(i as int),
        decreases chars@.len() - i,
    {
        push_char(s, chars[i]);
        i = i + 1;
        assert(s@ =~= old(s)@ + chars@.take(i as int));
    }
    assert(chars@.take(chars@.len() as int) =~= chars@);
}

/// Appends a string slice to a string.
pub fn push_str(s: &mut String, t: &str)
    ensures
        final(s)@ == old(s)@ + t@,
{
    let cs = chars_of(t);
    push_chars(s, cs.as_slice());
}

/// Rust's `char::is_whitespace`: the Unicode `White_Space` property.
pub open spec fn is_space(c: char) -> bool {
    ||| ('\u{9}' <= c && c <= '\u{d}')
    ||| c == ' '
    ||| c == '\u{85}'
    ||| c == '\u{a0}'
    ||| c == '\u{1680}'
    ||| ('\u{2000}' <= c && c <= '\u{200a}')
    ||| c == '\u{2028}'
    ||| c == '\u{2029}'
    ||| c == '\u{202f}'
    ||| c == '\u{205f}'
    ||| c == '\u{3000}'
}

pub fn char_is_space(c: char) -> (r: bool)
    ensures
        r == is_space(c),
{
    ('\u{9}' <= c && c <= '\u{d}') || c == ' ' || c == '\u{85}' || c == '\u{a0}' || c == '\u{1680}'
        || ('\u{2000}' <= c && c <= '\u{200a}') || c == '\u{2028}' || c == '\u{2029}'
        || c == '\u{202f}' || c == '\u{205f}' || c == '\u{3000}'
}

/// Number of leading whitespace characters.
pub open spec fn leading_space(s: Seq<char>) -> nat
    decreases s.len(),
{
    if s.len() > 0 && is_space(s[0]) {
        1 + leading_space(s.drop_first())
    } else {
        0
    }
}

/// Number of trailing whitespace characters.
pub open spec fn trailing_space(s: Seq<char>) -> nat
    decreases s.len(),
{
    if s.len() > 0 && is_space(s.last()) {
        1 + trailing_space(s.drop_last())
    } else {
        0
    }
}

/// `str::trim_start`.
pub open spec fn trim_start(s: Seq<char>) -> Seq<char> {
    s.skip(leading_space(s) as int)
}

/// `str::trim_end`.
pub open spec fn trim_end(s: Seq<char>) -> Seq<char> {
    s.take(s.len() - trailing_space(s))
}

/// `str::trim`.
pub open spec fn trim(s: Seq<char>) -> Seq<char> {
    trim_end(trim_start(s))
}

pub proof fn lemma_leading_space(s: Seq<char>)
    ensures
        leading_space(s) <= s.len(),
        forall|i: int| 0 <= i < leading_space(s) ==> is_space(#[trigger] s[i]),
        leading_space(s) < s.len() ==> !is_space(s[leading_space(s) as int]),
    decreases s.len(),
{
    if s.len() > 0 && is_space(s[0]) {
        lemma_leading_space(s.drop_first());
        assert forall|i: int| 0 <= i < leading_space(s) implies is_space(#[trigger] s[i]) by {
            if i > 0 {
                assert(s[i] == s.drop_first()[i - 1]);
            }
        }
    }
}

pub proof fn lemma_trailing_space(s: Seq<char>)
    ensures
        trailing_space(s) <= s.len(),
        forall|i: int| s.len() - trailing_space(s) <= i < s.len() ==> is_space(#[trigger] s[i]),
        trailing_space(s) < s.len() ==> !is_space(s[s.len() - trailing_space(s) - 1]),
    decreases s.len(),
{
    if s.len() > 0 && is_space(s.last()) {
        lemma_trailing_space(s.drop_last());
        assert forall|i: int| s.len() - trailing_space(s) <= i < s.len() implies is_space(
            #[trigger] s[i],
        ) by {
            if i < s.len() - 1 {
                assert(s[i] == s.drop_last()[i]);
            }
        }
    }
}

/// Characters of `s` from `from` up to `to`.
pub fn slice_chars(s: &[char], from: usize, to: usize) -> (r: Vec<char>)
    requires
        from <= to <= s@.len(),
    ensures
        r@ == s@.subrange(from as int, to as int),
{
    let mut out: Vec<char> = Vec::new();
    let mut i = from;
    while i < to
        invariant
            from <= i <= to <= s@.len(),
            out@ == s@.subrange(from as int, i as int),
        decreases to - i,
    {
        out.push(s[i]);
        i = i + 1;
        assert(out@ =~= s@.subrange(from as int, i as int));
    }
    out
}

/// Position of the first non-whitespace character.
pub fn count_leading_space(s: &[char]) -> (r: usize)
    ensures
        r == leading_space(s@),
        r <= s@.len(),
{
    proof {
        lemma_leading_space(s@);
    }
    let mut i: usize = 0;
    while i < s.len() && char_is_space(s[i])
        invariant
            i <= s@.len(),
            forall|k: int| 0 <= k < i ==> is_space(#[trigger] s@[k]),
        decreases s@.len() - i,
    {
        i = i + 1;
    }
    proof {
        lemma_leading_space_is_first(s@, i as int);
    }
    i
}

proof fn lemma_leading_space_is_first(s: Seq<char>, i: int)
    requires
        0 <= i <= s.len(),
        forall|k: int| 0 <= k < i ==> is_space(#[trigger] s[k]),
        i == s.len() || !is_space(s[i]),
    ensures
        leading_space(s) == i,
    decreases s.len(),
{
    if i > 0 {
        assert forall|k: int| 0 <= k < i - 1 implies is_space(#[trigger] s.drop_first()[k]) by {
            assert(s.drop_first()[k] == s[k + 1]);
        }
        if i - 1 < s.drop_first().len() {
            assert(s.drop_first()[i - 1] == s[i]);
        }
        lemma_leading_space_is_first(s.drop_first(), i - 1);
    }
}

proof fn lemma_trailing_space_is_last(s: Seq<char>, j: int)
    requires
        0 <= j <= s.len(),
        forall|k: int| j <= k < s.len() ==> is_space(#[trigger] s[k]),
        j == 0 || !is_space(s[j - 1]),
    ensures
        trailing_space(s) == s.len() - j,
    decreases s.len(),
{
    if j < s.len() {
        assert forall|k: int| j <= k < s.len() - 1 implies is_space(#[trigger] s.drop_last()[k]) by {
            assert(s.drop_last()[k] == s[k]);
        }
        if j > 0 {
            assert(s.drop_last()[j - 1] == s[j - 1]);
        }
        lemma_trailing_space_is_last(s.drop_last(), j);
    }
}

/// Length of `s` once trailing whitespace is removed.
pub fn trimmed_end_len(s: &[char]) -> (r: usize)
    ensures
        r == s@.len() - trailing_space(s@),
{
    let mut j: usize = s.len();
    while j > 0 && char_is_space(s[j - 1])
        invariant
            j <= s@.len(),
            forall|k: int| j <= k < s@.len() ==> is_space(#[trigger] s@[k]),
        decreases j,
    {
        j = j - 1;
    }
    proof {
        lemma_trailing_space_is_last(s@, j as int);
    }
    j
}

/// `str::trim`, on characters.
pub fn trim_chars(s: &[char]) -> (r: Vec<char>)
    ensures
        r@ == trim(s@),
{
    let start = count_leading_space(s);
    let rest = slice_chars(s, start, s.len());
    let end = trimmed_end_len(rest.as_slice());
    proof {
        lemma_trailing_space(rest@);
    }
    slice_chars(rest.as_slice(), 0, end)
}

/// `str::trim_start`, on characters.
pub fn trim_start_chars(s: &[char]) -> (r: Vec<char>)
    ensures
        r@ == trim_start(s@),
{
    let start = count_leading_space(s);
    slice_chars(s, start, s.len())
}

/// `str::trim_end`, on characters.
pub fn trim_end_chars(s: &[char]) -> (r: Vec<char>)
    ensures
        r@ == trim_end(s@),
{
    let end = trimmed_end_len(s);
    proof {
        lemma_trailing_space(s@);
    }
    slice_chars(s, 0, end)
}


/// Index of the first occurrence of `c` in `s`.
pub open spec fn find(s: Seq<char>, c: char) -> Option<int>
    decreases s.len(),
{
    if s.len() == 0 {
        None
    } else if s[0] == c {
        Some(0)
    } else {
        match find(s.drop_first(), c) {
            Some(i) => Some(i + 1),
            None => None,
        }
    }
}

pub proof fn lemma_find(s: Seq<char>, c: char)
    ensures
        find(s, c) matches Some(i) ==> 0 <= i < s.len() && s[i] == c && forall|k: int|
            0 <= k < i ==> #[trigger] s[k] != c,
        find(s, c) is None ==> forall|k: int| 0 <= k < s.len() ==> #[trigger] s[k] != c,
    decreases s.len(),
{
    if s.len() > 0 && s[0] != c {
        lemma_find(s.drop_first(), c);
        assert forall|k: int| 1 <= k < s.len() implies s.drop_first()[k - 1] == #[trigger] s[k] by {
        }
    }
}

pub proof fn lemma_find_is_first(s: Seq<char>, c: char, i: int)
    requires
        0 <= i <= s.len(),
        forall|k: int| 0 <= k < i ==> #[trigger] s[k] != c,
        i == s.len() || s[i] == c,
    ensures
        find(s, c) == (if i == s.len() { None } else { Some(i) }),
    decreases s.len(),
{
    if s.len() > 0 && i > 0 {
        assert forall|k: int| 0 <= k < i - 1 implies #[trigger] s.drop_first()[k] != c by {
            assert(s.drop_first()[k] == s[k + 1]);
        }
        lemma_find_is_first(s.drop_first(), c, i - 1);
    }
}

/// Finds the first occurrence of `c`.
pub fn find_char(s: &[char], c: char) -> (r: Option<usize>)
    ensures
        r matches Some(i) ==> find(s@, c) == Some(i as int),
        r is None ==> find(s@, c) is None,
{
    let mut i: usize = 0;
    while i < s.len()
        invariant
            i <= s@.len(),
            forall|k: int| 0 <= k < i ==> #[trigger] s@[k] != c,
        decreases s@.len() - i,
    {
        if s[i] == c {
            proof {
                lemma_find_is_first(s@, c, i as int);
            }
            return Some(i);
        }
        i = i + 1;
    }
    proof {
        lemma_find_is_first(s@, c, i as int);
    }
    None
}

/// Splits `s` at every `sep`, as `str::split` does.
pub open spec fn split(s: Seq<char>, sep: char) -> Seq<Seq<char>>
    decreases s.len(),
{
    match find(s, sep) {
        None => seq![s],
        Some(i) => if 0 <= i < s.len() {
            seq![s.take(i)] + split(s.skip(i + 1), sep)
        } else {
            seq![s]
        },
    }
}

/// The character sequences held by a list of character vectors.
pub open spec fn views(v: Seq<Vec<char>>) -> Seq<Seq<char>> {
    v.map_values(|x: Vec<char>| x@)
}

/// `str::split`, on characters.
pub fn split_chars(s: &[char], sep: char) -> (r: Vec<Vec<char>>)
    ensures
        views(r@) == split(s@, sep),
    decreases s@.len(),
{
    proof {
        lemma_find(s@, sep);
    }
    match find_char(s, sep) {
        None => {
            let mut out: Vec<Vec<char>> = Vec::new();
            let whole = slice_chars(s, 0, s.len());
            assert(whole@ =~= s@);
            out.push(whole);
            assert(views(out@) =~= seq![s@]);
            out
        },
        Some(i) => {
            assert(i < s.len());
            let head = slice_chars(s, 0, i);
            let rest_v = slice_chars(s, i + 1, s.len());
            let rest = split_chars(rest_v.as_slice(), sep);
            let mut out: Vec<Vec<char>> = Vec::new();
            out.push(head);
            assert(views(out@) =~= seq![s@.take(i as int)]);
            let mut k: usize = 0;
            while k < rest.len()
                invariant
                    k <= rest@.len(),
                    views(out@) =~= seq![s@.take(i as int)] + views(rest@).take(k as int),
                decreases rest@.len() - k,
            {
                let piece = slice_chars(rest[k].as_slice(), 0, rest[k].len());
                assert(piece@ =~= rest@[k as int]@);
                let ghost before = out@;
                out.push(piece);
                assert(views(out@) =~= views(before).push(piece@));
                k = k + 1;
                assert(views(rest@).take(k as int) =~= views(rest@).take(k - 1).push(
                    views(rest@)[k - 1],
                ));
            }
            assert(views(rest@).take(rest@.len() as int) =~= views(rest@));
            assert(rest_v@ =~= s@.skip(i + 1));
            out
        },
    }
}

/// True when every character of `s` is an ASCII decimal digit.
pub open spec fn all_digits(s: Seq<char>) -> bool {
    forall|i: int| 0 <= i < s.len() ==> '0' <= #[trigger] s[i] && s[i] <= '9'
}

/// The number written by a sequence of decimal digits.
pub open spec fn digits_value(s: Seq<char>) -> nat
    decreases s.len(),
{
    if s.len() == 0 {
        0
    } else {
        digits_value(s.drop_last()) * 10 + ((s.last() as nat) - ('0' as nat)) as nat
    }
}

/// `u8::from_str`: an optional `+`, then at least one decimal digit, with a value that fits.
pub open spec fn parse_u8(s: Seq<char>) -> Option<u8> {
    let digits = if s.len() > 1 && s[0] == '+' {
        s.drop_first()
    } else {
        s
    };
    if s.len() > 0 && all_digits(digits) && digits_value(digits) <= 255 {
        Some(digits_value(digits) as u8)
    } else {
        None
    }
}

pub proof fn lemma_digits_value_grows(s: Seq<char>, k: int)
    requires
        0 <= k <= s.len(),
        all_digits(s),
    ensures
        digits_value(s.take(k)) <= digits_value(s),
    decreases s.len() - k,
{
    if k < s.len() {
        lemma_digits_value_grows(s, k + 1);
        assert(s.take(k + 1).drop_last() =~= s.take(k));
        assert(s.take(k + 1).last() == s[k]);
        assert('0' <= s[k] && s[k] <= '9');
        assert(digits_value(s.take(k + 1)) == digits_value(s.take(k)) * 10 + ((s[k] as nat) - (
        '0' as nat)) as nat);
    } else {
        assert(s.take(k) =~= s);
    }
}

/// The value of a run of digits, or `None` when it is not one or exceeds `limit`.
fn digits_upto(s: &[char], start: usize, limit: u32) -> (r: Option<u32>)
    requires
        start <= s@.len(),
        9 <= limit <= 1000,
    ensures
        r matches Some(v) ==> all_digits(s@.skip(start as int)) && v == digits_value(
            s@.skip(start as int),
        ) && v <= limit,
        r is None ==> !(all_digits(s@.skip(start as int)) && digits_value(s@.skip(start as int))
            <= limit),
{
    let ghost d = s@.skip(start as int);
    let mut value: u32 = 0;
    let mut i: usize = start;
    while i < s.len()
        invariant
            start <= i <= s@.len(),
            d == s@.skip(start as int),
            all_digits(d.take(i - start)),
            value == digits_value(d.take(i - start)),
            value <= limit,
            9 <= limit <= 1000,
        decreases s@.len() - i,
    {
        let c = s[i];
        assert(d[i - start] == c);
        if !('0' <= c && c <= '9') {
            assert(!all_digits(d));
            return None;
        }
        let digit = (c as u32) - ('0' as u32);
        assert(digit <= 9);
        assert(d.take(i + 1 - start).drop_last() =~= d.take(i - start));
        assert(all_digits(d.take(i + 1 - start)));
        if value > (limit - digit) / 10 {
            proof {
                assert(digits_value(d.take(i + 1 - start)) > limit);
                if all_digits(d) {
                    lemma_digits_value_grows(d, i + 1 - start);
                }
            }
            return None;
        }
        value = value * 10 + digit;
        i = i + 1;
    }
    assert(d.take(i - start) =~= d);
    Some(value)
}

/// `u8::from_str`, on characters.
pub fn parse_u8_chars(s: &[char]) -> (r: Option<u8>)
    ensures
        r == parse_u8(s@),
{
    if s.len() == 0 {
        return None;
    }
    let start: usize = if s.len() > 1 && s[0] == '+' {
        1
    } else {
        0
    };
    assert(s@.skip(0) =~= s@);
    assert(s@.skip(1) =~= s@.drop_first());
    match digits_upto(s, start, 255) {
        Some(v) => Some(v as u8),
        None => None,
    }
}


/// Character-wise equality of two slices.
pub fn chars_eq(a: &[char], b: &[char]) -> (r: bool)
    ensures
        r == (a@ == b@),
{
    if a.len() != b.len() {
        return false;
    }
    let mut i: usize = 0;
    while i < a.len()
        invariant
            i <= a@.len(),
            a@.len() == b@.len(),
            forall|k: int| 0 <= k < i ==> a@[k] == b@[k],
        decreases a@.len() - i,
    {
        if a[i] != b[i] {
            return false;
        }
        i = i + 1;
    }
    assert(a@ =~= b@);
    true
}

/// Equality of two string slices.
pub fn str_eq(a: &str, b: &str) -> (r: bool)
    ensures
        r == (a@ == b@),
{
    let x = chars_of(a);
    let y = chars_of(b);
    chars_eq(x.as_slice(), y.as_slice())
}


/// True when `needle` occurs in `hay` starting at `i`.
pub open spec fn occurs_at(hay: Seq<char>, needle: Seq<char>, i: int) -> bool {
    0 <= i && i + needle.len() <= hay.len() && hay.subrange(i, i + needle.len()) == needle
}

/// True when `needle` occurs somewhere in `hay` (`str::contains`).
pub open spec fn has_sub(hay: Seq<char>, needle: Seq<char>) -> bool {
    exists|i: int| occurs_at(hay, needle, i)
}

fn matches_at(hay: &[char], needle: &[char], i: usize) -> (r: bool)
    requires
        i + needle@.len() <= hay@.len(),
    ensures
        r == occurs_at(hay@, needle@, i as int),
{
    let mut k: usize = 0;
    while k < needle.len()
        invariant
            k <= needle@.len(),
            i + needle.len() <= hay.len(),
            forall|m: int| 0 <= m < k ==> hay@[i + m] == needle@[m],
        decreases needle@.len() - k,
    {
        if hay[i + k] != needle[k] {
            assert(hay@.subrange(i as int, i + needle@.len())[k as int] != needle@[k as int]);
            return false;
        }
        k = k + 1;
    }
    assert(hay@.subrange(i as int, i + needle@.len()) =~= needle@);
    true
}

/// Substring search on characters.
pub fn contains_chars(hay: &[char], needle: &[char]) -> (r: bool)
    ensures
        r == has_sub(hay@, needle@),
{
    if needle.len() > hay.len() {
        return false;
    }
    let last = hay.len() - needle.len();
    let mut i: usize = 0;
    loop
        invariant
            i <= last,
            last + needle@.len() == hay@.len(),
            forall|k: int| 0 <= k < i ==> !occurs_at(hay@, needle@, k),
        decreases last - i,
    {
        if matches_at(hay, needle, i) {
            return true;
        }
        if i == last {
            return false;
        }
        i = i + 1;
    }
}

/// `str::contains` with a string pattern.
pub fn str_contains(hay: &str, needle: &str) -> (r: bool)
    ensures
        r == has_sub(hay@, needle@),
{
    let h = chars_of(hay);
    let n = chars_of(needle);
    contains_chars(h.as_slice(), n.as_slice())
}

/// `char::to_ascii_lowercase`.
pub open spec fn ascii_lower(c: char) -> char {
    if 'A' <= c && c <= 'Z' {
        ((c as u32) + 32) as char
    } else {
        c
    }
}

pub fn to_ascii_lower(c: char) -> (r: char)
    ensures
        r == ascii_lower(c),
{
    if 'A' <= c && c <= 'Z' {
        ((c as u8) + 32) as char
    } else {
        c
    }
}

/// `str::eq_ignore_ascii_case`.
pub open spec fn eq_ignore_case(a: Seq<char>, b: Seq<char>) -> bool {
    a.len() == b.len() && forall|i: int| 0 <= i < a.len() ==> ascii_lower(#[trigger] a[i])
        == ascii_lower(b[i])
}

pub fn chars_eq_ignore_case(a: &[char], b: &[char]) -> (r: bool)
    ensures
        r == eq_ignore_case(a@, b@),
{
    if a.len() != b.len() {
        return false;
    }
    let mut i: usize = 0;
    while i < a.len()
        invariant
            i <= a@.len(),
            a@.len() == b@.len(),
            forall|k: int| 0 <= k < i ==> ascii_lower(#[trigger] a@[k]) == ascii_lower(b@[k]),
        decreases a@.len() - i,
    {
        if to_ascii_lower(a[i]) != to_ascii_lower(b[i]) {
            return false;
        }
        i = i + 1;
    }
    true
}

/// True when every character of a string is ASCII.
pub open spec fn all_ascii(s: Seq<char>) -> bool {
    forall|i: int| 0 <= i < s.len() ==> (#[trigger] s[i] as u32) < 128
}

/// A string lower-cased as `str::to_lowercase` does it: ASCII text letter by letter, anything
/// else as [`lowered`] names it.
pub open spec fn lower_cased(s: Seq<char>) -> Seq<char> {
    if all_ascii(s) {
        s.map_values(|c: char| ascii_lower(c))
    } else {
        lowered(s)
    }
}

/// A string upper-cased as `str::to_uppercase` does it: ASCII text letter by letter, anything
/// else as [`uppered`] names it.
pub open spec fn upper_cased(s: Seq<char>) -> Seq<char> {
    if all_ascii(s) {
        s.map_values(|c: char| ascii_upper(c))
    } else {
        uppered(s)
    }
}

/// What `str::to_lowercase` returns: full Unicode lower-casing, which can change the length
/// of a string.
pub uninterp spec fn lowered(s: Seq<char>) -> Seq<char>;

/// Lower-cases a string (`str::to_lowercase`).
///
/// Trusted: the result is a function of the input alone, named [`lowered`]. The standard
/// library documents that it lower-cases ASCII characters as `to_ascii_lowercase` does (and
/// non-ASCII ones besides), so a string of ASCII characters comes back with `A` to `Z` mapped
/// to `a` to `z` and everything else as it was; nothing more is stated about Unicode case
/// mapping.
#[verifier::external_body]
pub(crate) fn to_lowercase(s: &str) -> (r: String)
    ensures
        r@ == lowered(s@),
        all_ascii(s@) ==> r@ == s@.map_values(|c: char| ascii_lower(c)),
{
    s.to_lowercase()
}

/// What `char::is_alphanumeric` says of a character: Unicode `Alphabetic` or `Numeric`.
pub uninterp spec fn alphanumeric(c: char) -> bool;

/// `char::is_alphanumeric`.
///
/// Trusted: the result is named [`alphanumeric`]; for ASCII characters the standard library
/// documents it as exactly the letters and digits.
#[verifier::external_body]
pub(crate) fn is_alphanumeric(c: char) -> (r: bool)
    ensures
        r == alphanumeric(c),
        (c as u32) < 128 ==> r == (('a' <= c && c <= 'z') || ('A' <= c && c <= 'Z') || ('0' <= c
            && c <= '9')),
{
    c.is_alphanumeric()
}

/// The decimal digits of a number.
pub open spec fn decimal(n: nat) -> Seq<char>
    decreases n,
{
    if n < 10 {
        seq![(('0' as nat) + n) as char]
    } else {
        decimal(n / 10).push((('0' as nat) + n % 10) as char)
    }
}

pub proof fn lemma_decimal_digits(n: nat)
    ensures
        decimal(n).len() >= 1,
        crate::text::all_digits(decimal(n)),
        digits_value(decimal(n)) == n,
    decreases n,
{
    if n < 10 {
        let c = (('0' as nat) + n) as char;
        assert((c as nat) == ('0' as nat) + n);
        assert(decimal(n) == seq![c]);
        assert(seq![c].drop_last() =~= Seq::<char>::empty());
        assert(digits_value(seq![c]) == digits_value(Seq::<char>::empty()) * 10 + ((c as nat) - ('0' as nat)) as nat);
    }
    if n >= 10 {
        lemma_decimal_digits(n / 10);
        let d = decimal(n / 10);
        let c = (('0' as nat) + n % 10) as char;
        assert(decimal(n) == d.push(c));
        assert(d.push(c).drop_last() =~= d);
        assert((c as nat) == ('0' as nat) + n % 10);
        assert(digits_value(d.push(c)) == digits_value(d) * 10 + ((c as nat) - ('0' as nat)) as nat);
        assert((n / 10) * 10 + n % 10 == n);
        assert forall|i: int| 0 <= i < decimal(n).len() implies '0' <= #[trigger] decimal(n)[i] && decimal(n)[i] <= '9' by {
            if i < d.len() {
                assert(decimal(n)[i] == d[i]);
            }
        }
    }
}

/// Appends the decimal form of `n`.
pub fn push_decimal(s: &mut String, n: u64)
    ensures
        final(s)@ == old(s)@ + decimal(n as nat),
    decreases n,
{
    if n < 10 {
        push_char(s, (('0' as u8) + (n as u8)) as char);
        assert(old(s)@.push((('0' as u8) + (n as u8)) as char) =~= old(s)@ + decimal(n as nat));
    } else {
        push_decimal(s, n / 10);
        let ghost mid = s@;
        push_char(s, (('0' as u8) + ((n % 10) as u8)) as char);
        assert(s@ =~= old(s)@ + decimal(n as nat));
    }
}

/// What `str::to_uppercase` returns: full Unicode upper-casing.
pub uninterp spec fn uppered(s: Seq<char>) -> Seq<char>;

/// `char::to_ascii_uppercase`.
pub open spec fn ascii_upper(c: char) -> char {
    if 'a' <= c && c <= 'z' {
        ((c as u32) - 32) as char
    } else {
        c
    }
}

/// Upper-cases a string (`str::to_uppercase`).
///
/// Trusted: the result is a function of the input alone, named [`uppered`]. The standard
/// library documents that it upper-cases ASCII characters as `to_ascii_uppercase` does (and
/// non-ASCII ones besides), so a string of ASCII characters comes back with `a` to `z` mapped
/// to `A` to `Z` and everything else as it was; nothing more is stated about Unicode case
/// mapping.
#[verifier::external_body]
pub(crate) fn to_uppercase(s: &str) -> (r: String)
    ensures
        r@ == uppered(s@),
        all_ascii(s@) ==> r@ == s@.map_values(|c: char| ascii_upper(c)),
{
    s.to_uppercase()
}

/// `char::is_ascii_alphanumeric`.
pub open spec fn ascii_alnum(c: char) -> bool {
    ('0' <= c && c <= '9') || ('a' <= c && c <= 'z') || ('A' <= c && c <= 'Z')
}

/// `str::starts_with` with a string pattern.
pub open spec fn starts_with(s: Seq<char>, p: Seq<char>) -> bool {
    p.len() <= s.len() && s.take(p.len() as int) == p
}

/// `str::ends_with` with a string pattern.
pub open spec fn ends_with(s: Seq<char>, p: Seq<char>) -> bool {
    p.len() <= s.len() && s.skip(s.len() - p.len()) == p
}

/// `str::trim_end_matches` with a non-empty string pattern: every trailing repetition goes.
pub open spec fn trim_end_matches(s: Seq<char>, p: Seq<char>) -> Seq<char>
    decreases s.len(),
{
    if p.len() > 0 && ends_with(s, p) {
        trim_end_matches(s.take(s.len() - p.len()), p)
    } else {
        s
    }
}

/// `str::trim_end_matches`, on characters.
pub fn trim_end_matches_chars(s: &[char], p: &[char]) -> (r: Vec<char>)
    requires
        p@.len() > 0,
    ensures
        r@ == trim_end_matches(s@, p@),
{
    let mut end: usize = s.len();
    assert(s@.take(end as int) =~= s@);
    while end >= p.len() && matches_at(s, p, end - p.len())
        invariant
            end <= s@.len(),
            p@.len() > 0,
            trim_end_matches(s@.take(end as int), p@) == trim_end_matches(s@, p@),
        decreases end,
    {
        let ghost t = s@.take(end as int);
        assert(t.skip(t.len() - p@.len()) =~= s@.subrange(end - p@.len(), end as int));
        assert(t.take(t.len() - p@.len()) =~= s@.take(end - p@.len()));
        end = end - p.len();
    }
    proof {
        let t = s@.take(end as int);
        if p@.len() <= t.len() {
            assert(t.skip(t.len() - p@.len()) =~= s@.subrange(end - p@.len(), end as int));
        }
        if end == s@.len() {
            assert(t =~= s@);
        }
    }
    slice_chars(s, 0, end)
}

/// Index of the last occurrence of `c` in `s`.
pub open spec fn rfind(s: Seq<char>, c: char) -> Option<int>
    decreases s.len(),
{
    if s.len() == 0 {
        None
    } else if s.last() == c {
        Some(s.len() - 1)
    } else {
        rfind(s.drop_last(), c)
    }
}

pub proof fn lemma_rfind_is_last(s: Seq<char>, c: char, j: int)
    requires
        0 <= j <= s.len(),
        forall|k: int| j <= k < s.len() ==> #[trigger] s[k] != c,
        j == 0 || s[j - 1] == c,
    ensures
        rfind(s, c) == (if j == 0 { None } else { Some(j - 1) }),
    decreases s.len(),
{
    if j < s.len() {
        assert forall|k: int| j <= k < s.len() - 1 implies #[trigger] s.drop_last()[k] != c by {
            assert(s.drop_last()[k] == s[k]);
        }
        if j > 0 {
            assert(s.drop_last()[j - 1] == s[j - 1]);
        }
        lemma_rfind_is_last(s.drop_last(), c, j);
    }
}

/// Finds the last occurrence of `c`.
pub fn rfind_char(s: &[char], c: char) -> (r: Option<usize>)
    ensures
        r matches Some(i) ==> rfind(s@, c) == Some(i as int) && i < s@.len() && s@[i as int] == c,
        r is None ==> rfind(s@, c) is None,
{
    let mut j: usize = s.len();
    while j > 0 && s[j - 1] != c
        invariant
            j <= s@.len(),
            forall|k: int| j <= k < s@.len() ==> #[trigger] s@[k] != c,
        decreases j,
    {
        j = j - 1;
    }
    proof {
        lemma_rfind_is_last(s@, c, j as int);
    }
    if j == 0 {
        None
    } else {
        Some(j - 1)
    }
}

/// Number of leading ASCII digits.
pub open spec fn leading_digits(s: Seq<char>) -> nat
    decreases s.len(),
{
    if s.len() > 0 && '0' <= s[0] && s[0] <= '9' {
        1 + leading_digits(s.drop_first())
    } else {
        0
    }
}

pub proof fn lemma_leading_digits_is_first(s: Seq<char>, i: int)
    requires
        0 <= i <= s.len(),
        forall|k: int| 0 <= k < i ==> '0' <= #[trigger] s[k] && s[k] <= '9',
        i == s.len() || !('0' <= s[i] && s[i] <= '9'),
    ensures
        leading_digits(s) == i,
    decreases s.len(),
{
    if i > 0 {
        assert forall|k: int| 0 <= k < i - 1 implies '0' <= #[trigger] s.drop_first()[k]
            && s.drop_first()[k] <= '9' by {
            assert(s.drop_first()[k] == s[k + 1]);
        }
        if i - 1 < s.drop_first().len() {
            assert(s.drop_first()[i - 1] == s[i]);
        }
        lemma_leading_digits_is_first(s.drop_first(), i - 1);
    }
}

/// Counts the leading ASCII digits.
pub fn count_leading_digits(s: &[char]) -> (r: usize)
    ensures
        r == leading_digits(s@),
        r <= s@.len(),
        all_digits(s@.take(r as int)),
{
    let mut i: usize = 0;
    while i < s.len() && '0' <= s[i] && s[i] <= '9'
        invariant
            i <= s@.len(),
            forall|k: int| 0 <= k < i ==> '0' <= #[trigger] s@[k] && s@[k] <= '9',
        decreases s@.len() - i,
    {
        i = i + 1;
    }
    proof {
        lemma_leading_digits_is_first(s@, i as int);
        assert forall|k: int| 0 <= k < i implies '0' <= #[trigger] s@.take(i as int)[k]
            && s@.take(i as int)[k] <= '9' by {
            assert(s@.take(i as int)[k] == s@[k]);
        }
    }
    i
}

/// `u32::from_str` on a run of decimal digits: the value, when it fits.
pub fn digits_to_u32(s: &[char]) -> (r: Option<u32>)
    requires
        all_digits(s@),
    ensures
        r == (if digits_value(s@) <= u32::MAX {
            Some(digits_value(s@) as u32)
        } else {
            None::<u32>
        }),
{
    let mut value: u64 = 0;
    let mut i: usize = 0;
    while i < s.len()
        invariant
            i <= s@.len(),
            all_digits(s@),
            value == digits_value(s@.take(i as int)),
            value <= u32::MAX,
        decreases s@.len() - i,
    {
        let c = s[i];
        assert('0' <= s@[i as int] && s@[i as int] <= '9');
        let digit = (c as u64) - ('0' as u64);
        assert(s@.take(i + 1).drop_last() =~= s@.take(i as int));
        value = value * 10 + digit;
        i = i + 1;
        if value > 0xffff_ffff {
            proof {
                lemma_digits_value_grows(s@, i as int);
            }
            return None;
        }
    }
    assert(s@.take(i as int) =~= s@);
    Some(value as u32)
}

/// `str::lines`, up to a carriage return before each newline: the text split at every
/// newline, with no line after a final one.
pub open spec fn text_lines(s: Seq<char>) -> Seq<Seq<char>> {
    let parts = split(s, '\n');
    if parts.len() > 0 && parts.last().len() == 0 {
        parts.drop_last()
    } else {
        parts
    }
}

/// The lines of a text, as [`text_lines`] gives them.
pub fn lines_of(s: &str) -> (r: Vec<Vec<char>>)
    ensures
        views(r@) == text_lines(s@),
{
    let cs = chars_of(s);
    let mut parts = split_chars(cs.as_slice(), '\n');
    if parts.len() > 0 && parts[parts.len() - 1].len() == 0 {
        let ghost before = parts@;
        parts.pop();
        assert(views(parts@) =~= views(before).drop_last());
    }
    parts
}

/// What `{:?}` writes for a string: the text in double quotes, with quotes, backslashes,
/// control characters and other unprintable characters escaped.
pub uninterp spec fn debug_quoted(s: Seq<char>) -> Seq<char>;

/// Formats a string with `{:?}`.
///
/// Trusted: the result is named [`debug_quoted`]. The standard library documents that a
/// printable ASCII character other than a quote or a backslash is written as itself, so a
/// string of only those is written between plain double quotes.
#[verifier::external_body]
pub(crate) fn quoted(s: &str) -> (r: String)
    ensures
        r@ == debug_quoted(s@),
        (forall|i: int|
            0 <= i < s@.len() ==> ' ' <= #[trigger] s@[i] && s@[i] <= '~' && s@[i] != '"' && s@[i]
                != '\\') ==> r@ == seq!['"'] + s@ + seq!['"'],
{
    format!("{:?}", s)
}

/// Lexicographic order on characters, which is the order of strings in Rust.
pub open spec fn lex_less(a: Seq<char>, b: Seq<char>) -> bool
    decreases a.len(),
{
    if a.len() == 0 {
        b.len() > 0
    } else if b.len() == 0 {
        false
    } else if a[0] != b[0] {
        a[0] < b[0]
    } else {
        lex_less(a.drop_first(), b.drop_first())
    }
}

/// Two different strings are ordered one way or the other.
pub proof fn lemma_lex_total(a: Seq<char>, b: Seq<char>)
    ensures
        a != b ==> lex_less(a, b) || lex_less(b, a),
        !(lex_less(a, b) && lex_less(b, a)),
        !lex_less(a, a),
    decreases a.len(),
{
    if a.len() == 0 && b.len() == 0 {
        assert(a =~= b);
    }
    if a.len() > 0 && b.len() > 0 && a[0] == b[0] {
        lemma_lex_total(a.drop_first(), b.drop_first());
        if a != b {
            assert(a =~= seq![a[0]] + a.drop_first());
            assert(b =~= seq![b[0]] + b.drop_first());
        }
    }
    if a.len() > 0 {
        lemma_lex_total(a.drop_first(), a.drop_first());
    }
}

pub fn lex_less_exec(a: &[char], b: &[char]) -> (r: bool)
    ensures
        r == lex_less(a@, b@),
{
    let mut i: usize = 0;
    assert(a@.skip(0) =~= a@);
    assert(b@.skip(0) =~= b@);
    while i < a.len() && i < b.len() && a[i] == b[i]
        invariant
            i <= a@.len(),
            i <= b@.len(),
            lex_less(a@.skip(i as int), b@.skip(i as int)) == lex_less(a@, b@),
        decreases a@.len() - i,
    {
        assert(a@.skip(i as int).drop_first() =~= a@.skip(i + 1));
        assert(b@.skip(i as int).drop_first() =~= b@.skip(i + 1));
        i = i + 1;
    }
    let ghost x = a@.skip(i as int);
    let ghost y = b@.skip(i as int);
    if i == a.len() {
        assert(x.len() == 0);
        i < b.len()
    } else if i == b.len() {
        assert(y.len() == 0);
        false
    } else {
        assert(x[0] == a@[i as int] && y[0] == b@[i as int]);
        a[i] < b[i]
    }
}


/// `<` on string slices: lexicographic by character.
pub fn str_less(a: &str, b: &str) -> (r: bool)
    ensures
        r == lex_less(a@, b@),
{
    let x = chars_of(a);
    let y = chars_of(b);
    lex_less_exec(x.as_slice(), y.as_slice())
}

} // verus!
