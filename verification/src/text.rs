//! Strings as sequences of characters: the small vocabulary that the parsers
//! and message builders of this crate are specified with.

use vstd::prelude::*;
use vstd::string::*;

verus! {

/// `String::push` appends one character and changes nothing else.
pub assume_specification[ String::push ](s: &mut String, c: char)
    ensures
        final(s)@ == old(s)@.push(c),
;

/// Two string slices are equal exactly when their characters are.
pub fn str_eq(a: &str, b: &str) -> (r: bool)
    ensures
        r == (a@ == b@),
{
    let x = a.as_bytes();
    let y = b.as_bytes();
    if x.len() != y.len() {
        return false;
    }
    let mut i: usize = 0;
    while i < x.len()
        invariant
            i <= x.len(),
            x.len() == y.len(),
            x@ == a.spec_bytes(),
            y@ == b.spec_bytes(),
            forall|j: int| 0 <= j < i ==> x@[j] == y@[j],
        decreases x.len() - i,
    {
        if x[i] != y[i] {
            return false;
        }
        i += 1;
    }
    proof {
        assert(x@ =~= y@);
        vstd::utf8::encode_utf8_decode_utf8(a@);
        vstd::utf8::encode_utf8_decode_utf8(b@);
    }
    true
}

/// The characters of a string slice, one per element.
pub fn chars_of(s: &str) -> (r: Vec<char>)
    ensures
        r@ == s@,
{
    let mut out: Vec<char> = Vec::new();
    for c in it: s.chars()
        invariant
            out@ == it.seq().take(it.index()),
            it.seq() == s@,
    {
        out.push(c);
    }
    proof {
        assert(out@ =~= s@);
    }
    out
}

/// The texts of a list of strings.
pub open spec fn texts(v: Seq<String>) -> Seq<Seq<char>> {
    v.map_values(|s: String| s@)
}

pub proof fn lemma_texts_push(v: Seq<String>, s: String)
    ensures
        texts(v.push(s)) == texts(v).push(s@),
{
    assert(texts(v.push(s)) =~= texts(v).push(s@));
}

/// The text of an optional string slice.
pub open spec fn opt_text(o: Option<&str>) -> Option<Seq<char>> {
    match o {
        Some(s) => Some(s@),
        None => None,
    }
}

/// The text of an optional string.
pub open spec fn opt_string(o: Option<String>) -> Option<Seq<char>> {
    match o {
        Some(s) => Some(s@),
        None => None,
    }
}

/// The parts of a text before and after the first `sep`, if there is one.
pub open spec fn split_once_at(s: Seq<char>, sep: char) -> Option<(Seq<char>, Seq<char>)> {
    match s.index_of_first(sep) {
        Some(i) => Some((s.take(i), s.skip(i + 1))),
        None => None,
    }
}

/// The parts of a text before and after the last `sep`, if there is one.
pub open spec fn rsplit_once_at(s: Seq<char>, sep: char) -> Option<(Seq<char>, Seq<char>)> {
    match s.index_of_last(sep) {
        Some(i) => Some((s.take(i), s.skip(i + 1))),
        None => None,
    }
}

/// The pieces of a text between the occurrences of `sep`; always at least one.
pub open spec fn pieces(s: Seq<char>, sep: char) -> Seq<Seq<char>>
    decreases s.len(),
{
    match s.index_of_first(sep) {
        Some(i) => if 0 <= i < s.len() {
            seq![s.take(i)] + pieces(s.skip(i + 1), sep)
        } else {
            seq![s]
        },
        None => seq![s],
    }
}

/// The characters with Unicode's `White_Space` property.
pub open spec fn is_space(c: char) -> bool {
    ||| '\u{9}' <= c <= '\u{d}'
    ||| c == ' '
    ||| c == '\u{85}'
    ||| c == '\u{a0}'
    ||| c == '\u{1680}'
    ||| '\u{2000}' <= c <= '\u{200a}'
    ||| c == '\u{2028}'
    ||| c == '\u{2029}'
    ||| c == '\u{202f}'
    ||| c == '\u{205f}'
    ||| c == '\u{3000}'
}

/// A text without its leading white space.
pub open spec fn trim_start_of(s: Seq<char>) -> Seq<char>
    decreases s.len(),
{
    if s.len() > 0 && is_space(s[0]) {
        trim_start_of(s.drop_first())
    } else {
        s
    }
}

/// A text without its trailing white space.
pub open spec fn trim_end_of(s: Seq<char>) -> Seq<char>
    decreases s.len(),
{
    if s.len() > 0 && is_space(s.last()) {
        trim_end_of(s.drop_last())
    } else {
        s
    }
}

/// A text without leading and trailing white space.
pub open spec fn trimmed(s: Seq<char>) -> Seq<char> {
    trim_end_of(trim_start_of(s))
}

/// A character with the ASCII letters in lower case.
pub open spec fn lower_char(c: char) -> char {
    if 'A' <= c <= 'Z' {
        ((c as u8 + 32) as u8) as char
    } else {
        c
    }
}

/// A text with its ASCII letters in lower case.
pub open spec fn lowered(s: Seq<char>) -> Seq<char> {
    s.map_values(|c: char| lower_char(c))
}

pub open spec fn is_digit(c: char) -> bool {
    '0' <= c <= '9'
}

/// Whether a text holds `needle` somewhere.
pub open spec fn holds(s: Seq<char>, needle: Seq<char>) -> bool {
    exists|i: int|
        0 <= i <= s.len() - needle.len() && #[trigger] s.subrange(i, i + needle.len()) == needle
}

/// The value of a run of decimal digits.
pub open spec fn digits_value(s: Seq<char>) -> nat
    decreases s.len(),
{
    if s.len() == 0 {
        0
    } else {
        (digits_value(s.drop_last()) * 10 + (s.last() as u32 - '0' as u32)) as nat
    }
}

/// Whether a text is a non-empty run of decimal digits.
pub open spec fn all_digits(s: Seq<char>) -> bool {
    &&& s.len() > 0
    &&& forall|i: int| 0 <= i < s.len() ==> is_digit(#[trigger] s[i])
}

/// The unsigned number that a text spells: digits, with an optional leading
/// plus sign, whose value is at most `max`.
pub open spec fn number_of(s: Seq<char>, max: nat) -> Option<nat> {
    let d = if s.len() > 0 && s[0] == '+' { s.drop_first() } else { s };
    if all_digits(d) && digits_value(d) <= max {
        Some(digits_value(d))
    } else {
        None
    }
}

/// The decimal digits of a number, without leading zeros.
pub open spec fn decimal(n: nat) -> Seq<char>
    decreases n,
{
    if n < 10 {
        seq![digit_char(n)]
    } else {
        decimal(n / 10).push(digit_char(n % 10))
    }
}

pub open spec fn digit_char(d: nat) -> char {
    ((d as u8 + '0' as u8) as u8) as char
}

/// The index of the first `c` at or after `from`, or the length.
pub fn find_from(s: &[char], c: char, from: usize) -> (r: usize)
    requires
        from <= s.len(),
    ensures
        from <= r <= s.len(),
        forall|j: int| from <= j < r ==> s@[j] != c,
        r < s.len() ==> s@[r as int] == c,
{
    let mut i: usize = from;
    while i < s.len() && s[i] != c
        invariant
            from <= i <= s.len(),
            forall|j: int| from <= j < i ==> s@[j] != c,
        decreases s.len() - i,
    {
        i += 1;
    }
    i
}

/// A longer list has what the shorter one has, and the item added to it.
pub proof fn lemma_has_push<T>(v: Seq<T>, item: T, x: T)
    ensures
        v.push(item).contains(x) <==> v.contains(x) || x == item,
{
    let more = v.push(item);
    if v.contains(x) {
        let i = choose|i: int| 0 <= i < v.len() && v[i] == x;
        assert(more[i] == x);
    }
    if x == item {
        assert(more[v.len() as int] == x);
    }
    if more.contains(x) {
        let i = choose|i: int| 0 <= i < more.len() && more[i] == x;
        if i < v.len() {
            assert(v[i] == x);
        }
    }
}

pub proof fn lemma_index_of_first(s: Seq<char>, c: char, i: int)
    requires
        0 <= i < s.len(),
        s[i] == c,
        forall|j: int| 0 <= j < i ==> s[j] != c,
    ensures
        s.index_of_first(c) == Some(i),
{
    s.index_of_first_ensures(c);
}

pub proof fn lemma_no_index_of_first(s: Seq<char>, c: char)
    requires
        forall|j: int| 0 <= j < s.len() ==> s[j] != c,
    ensures
        s.index_of_first(c) is None,
        s.index_of_last(c) is None,
{
    s.index_of_first_ensures(c);
    s.index_of_last_ensures(c);
}

/// Splits a string slice at the first `sep`.
pub fn split_once(s: &str, sep: char) -> (r: Option<(&str, &str)>)
    ensures
        match r {
            Some((a, b)) => split_once_at(s@, sep) == Some((a@, b@)),
            None => split_once_at(s@, sep) is None,
        },
{
    let chars = chars_of(s);
    let i: usize = find_from(&chars, sep, 0);
    if i < chars.len() {
        proof {
            lemma_index_of_first(s@, sep, i as int);
        }
        let n: usize = chars.len();
        Some((s.substring_char(0, i), s.substring_char(i + 1, n)))
    } else {
        proof {
            lemma_no_index_of_first(s@, sep);
        }
        None
    }
}

/// Splits a string slice at the last `sep`.
pub fn rsplit_once(s: &str, sep: char) -> (r: Option<(&str, &str)>)
    ensures
        match r {
            Some((a, b)) => rsplit_once_at(s@, sep) == Some((a@, b@)),
            None => rsplit_once_at(s@, sep) is None,
        },
{
    let chars = chars_of(s);
    let n: usize = chars.len();
    let mut i: usize = n;
    while i > 0 && chars[i - 1] != sep
        invariant
            i <= n,
            n == chars.len(),
            forall|j: int| i <= j < n ==> chars@[j] != sep,
        decreases i,
    {
        i -= 1;
    }
    if i > 0 {
        proof {
            s@.index_of_last_ensures(sep);
        }
        Some((s.substring_char(0, i - 1), s.substring_char(i, n)))
    } else {
        proof {
            lemma_no_index_of_first(s@, sep);
        }
        None
    }
}

/// The pieces of a string slice between the occurrences of `sep`.
pub fn split(s: &str, sep: char) -> (r: Vec<String>)
    ensures
        texts(r@) == pieces(s@, sep),
{
    let chars = chars_of(s);
    let n: usize = chars.len();
    let mut out: Vec<String> = Vec::new();
    let mut start: usize = 0;
    proof {
        assert(s@.skip(0) =~= s@);
        assert(texts(out@) + pieces(s@, sep) =~= pieces(s@, sep));
    }
    loop
        invariant
            start <= n,
            n == chars.len(),
            chars@ == s@,
            texts(out@) + pieces(s@.skip(start as int), sep) == pieces(s@, sep),
        decreases n - start,
    {
        let end: usize = find_from(&chars, sep, start);
        let rest = Ghost(s@.skip(start as int));
        let piece = s.substring_char(start, end).to_owned();
        proof {
            assert(piece@ =~= rest@.take(end - start));
        }
        let before = Ghost(out@);
        out.push(piece);
        proof {
            assert(texts(out@) =~= texts(before@).push(piece@));
        }
        if end == n {
            proof {
                assert forall|j: int| 0 <= j < rest@.len() implies rest@[j] != sep by {
                    assert(rest@[j] == s@[start + j]);
                }
                lemma_no_index_of_first(rest@, sep);
                assert(rest@.take(end - start) =~= rest@);
                assert(texts(out@) =~= texts(before@) + pieces(rest@, sep));
            }
            return out;
        }
        proof {
            assert forall|j: int| 0 <= j < end - start implies rest@[j] != sep by {
                assert(rest@[j] == s@[start + j]);
            }
            assert(rest@[end - start] == s@[end as int]);
            lemma_index_of_first(rest@, sep, end - start);
            assert(rest@.skip(end - start + 1) =~= s@.skip(end + 1));
            assert(texts(out@) + pieces(s@.skip(end + 1), sep) =~= texts(before@) + pieces(rest@, sep));
        }
        start = end + 1;
    }
}

pub fn is_space_char(c: char) -> (r: bool)
    ensures
        r == is_space(c),
{
    ('\u{9}' <= c && c <= '\u{d}') || c == ' ' || c == '\u{85}' || c == '\u{a0}' || c == '\u{1680}'
        || ('\u{2000}' <= c && c <= '\u{200a}') || c == '\u{2028}' || c == '\u{2029}' || c
        == '\u{202f}' || c == '\u{205f}' || c == '\u{3000}'
}

/// A string slice without leading and trailing white space.
pub fn trim(s: &str) -> (r: &str)
    ensures
        r@ == trimmed(s@),
{
    let chars = chars_of(s);
    let n: usize = chars.len();
    let mut start: usize = 0;
    proof {
        assert(s@.skip(0) =~= s@);
    }
    while start < n && is_space_char(chars[start])
        invariant
            start <= n,
            n == chars.len(),
            chars@ == s@,
            trim_start_of(s@.skip(start as int)) == trim_start_of(s@),
        decreases n - start,
    {
        proof {
            assert(s@.skip(start as int).drop_first() =~= s@.skip(start + 1));
        }
        start += 1;
    }
    let ghost body = s@.skip(start as int);
    proof {
        assert(trim_start_of(s@) == body);
        assert(s@.subrange(start as int, n as int) =~= body);
    }
    let mut end: usize = n;
    while end > start && is_space_char(chars[end - 1])
        invariant
            start <= end <= n,
            n == chars.len(),
            chars@ == s@,
            trim_end_of(s@.subrange(start as int, end as int)) == trim_end_of(body),
        decreases end,
    {
        proof {
            assert(s@.subrange(start as int, end as int).drop_last() =~= s@.subrange(
                start as int,
                end - 1,
            ));
        }
        end -= 1;
    }
    s.substring_char(start, end)
}

pub fn to_lower_char(c: char) -> (r: char)
    ensures
        r == lower_char(c),
{
    if 'A' <= c && c <= 'Z' {
        ((c as u8) + 32) as char
    } else {
        c
    }
}

/// A copy of a string slice with its ASCII letters in lower case.
pub fn to_lower(s: &str) -> (r: String)
    ensures
        r@ == lowered(s@),
{
    let mut out = String::new();
    for c in it: s.chars()
        invariant
            it.seq() == s@,
            out@ == lowered(s@.take(it.index())),
    {
        out.push(to_lower_char(c));
        proof {
            assert(lowered(s@.take(it.index() + 1)) =~= lowered(s@.take(it.index())).push(
                lower_char(s@[it.index()]),
            ));
        }
    }
    proof {
        assert(s@.take(s@.len() as int) =~= s@);
    }
    out
}

/// Whether a string slice begins with `prefix`.
pub fn starts_with(s: &str, prefix: &str) -> (r: bool)
    ensures
        r == prefix@.is_prefix_of(s@),
{
    let a = chars_of(s);
    let b = chars_of(prefix);
    if a.len() < b.len() {
        return false;
    }
    let mut i: usize = 0;
    while i < b.len()
        invariant
            i <= b.len() <= a.len(),
            a@ == s@,
            b@ == prefix@,
            forall|j: int| 0 <= j < i ==> a@[j] == b@[j],
        decreases b.len() - i,
    {
        if a[i] != b[i] {
            proof {
                assert(s@.subrange(0, prefix@.len() as int)[i as int] != prefix@[i as int]);
            }
            return false;
        }
        i += 1;
    }
    proof {
        assert(s@.subrange(0, prefix@.len() as int) =~= prefix@);
    }
    true
}

/// What follows `prefix` in a string slice that begins with it.
pub fn strip_prefix<'a>(s: &'a str, prefix: &str) -> (r: Option<&'a str>)
    ensures
        match r {
            Some(rest) => prefix@.is_prefix_of(s@) && rest@ == s@.skip(prefix@.len() as int),
            None => !prefix@.is_prefix_of(s@),
        },
{
    if starts_with(s, prefix) {
        let k: usize = chars_of(prefix).len();
        let n: usize = chars_of(s).len();
        let rest = s.substring_char(k, n);
        proof {
            assert(rest@ =~= s@.skip(prefix@.len() as int));
        }
        Some(rest)
    } else {
        None
    }
}

/// Whether the characters of `s` at `at` spell `needle`.
pub fn matches_at(s: &[char], needle: &[char], at: usize) -> (r: bool)
    requires
        at <= s.len(),
    ensures
        r == (at + needle.len() <= s.len() && s@.subrange(at as int, at + needle.len())
            == needle@),
{
    if s.len() - at < needle.len() {
        return false;
    }
    let mut j: usize = 0;
    while j < needle.len()
        invariant
            j <= needle.len(),
            at + needle.len() <= s.len(),
            forall|k: int| 0 <= k < j ==> s@[at + k] == needle@[k],
        decreases needle.len() - j,
    {
        if s[at + j] != needle[j] {
            proof {
                assert(s@.subrange(at as int, at + needle.len())[j as int] != needle@[j as int]);
            }
            return false;
        }
        j += 1;
    }
    proof {
        assert(s@.subrange(at as int, at + needle.len()) =~= needle@);
    }
    true
}

/// Whether a string slice holds `needle` somewhere.
pub fn contains(s: &str, needle: &str) -> (r: bool)
    ensures
        r == holds(s@, needle@),
{
    let a = chars_of(s);
    let b = chars_of(needle);
    if a.len() < b.len() {
        return false;
    }
    let last: usize = a.len() - b.len();
    let mut i: usize = 0;
    loop
        invariant
            i <= last,
            last == a.len() - b.len(),
            a@ == s@,
            b@ == needle@,
            forall|k: int| 0 <= k < i ==> #[trigger] s@.subrange(k, k + needle@.len()) != needle@,
        decreases last - i,
    {
        if matches_at(&a, &b, i) {
            return true;
        }
        if i == last {
            return false;
        }
        i += 1;
    }
}

/// Whether a list of strings holds `s`.
pub fn list_has(v: &Vec<String>, s: &str) -> (r: bool)
    ensures
        r == texts(v@).contains(s@),
{
    let mut i: usize = 0;
    while i < v.len()
        invariant
            i <= v.len(),
            forall|j: int| 0 <= j < i ==> texts(v@)[j] != s@,
        decreases v.len() - i,
    {
        if str_eq(v[i].as_str(), s) {
            proof {
                assert(texts(v@)[i as int] == s@);
            }
            return true;
        }
        i += 1;
    }
    false
}

/// A list of strings, copied.
pub fn clone_list(v: &Vec<String>) -> (r: Vec<String>)
    ensures
        texts(r@) == texts(v@),
{
    let mut out: Vec<String> = Vec::new();
    let mut i: usize = 0;
    while i < v.len()
        invariant
            i <= v.len(),
            texts(out@) == texts(v@).take(i as int),
        decreases v.len() - i,
    {
        let before = Ghost(out@);
        out.push(v[i].clone());
        i += 1;
        proof {
            assert(texts(out@) =~= texts(before@).push(v@[i - 1]@));
            assert(texts(v@).take(i as int) =~= texts(v@).take(i - 1).push(texts(v@)[i - 1]));
        }
    }
    proof {
        assert(texts(v@).take(i as int) =~= texts(v@));
    }
    out
}

/// The concatenation of two texts.
pub fn cat(a: &str, b: &str) -> (r: String)
    ensures
        r@ == a@ + b@,
{
    let mut out = a.to_owned();
    out.append(b);
    out
}

/// The concatenation of three texts.
pub fn cat3(a: &str, b: &str, c: &str) -> (r: String)
    ensures
        r@ == a@ + b@ + c@,
{
    let mut out = a.to_owned();
    out.append(b);
    out.append(c);
    out
}

/// The concatenation of four texts.
pub fn cat4(a: &str, b: &str, c: &str, d: &str) -> (r: String)
    ensures
        r@ == a@ + b@ + c@ + d@,
{
    let mut out = cat3(a, b, c);
    out.append(d);
    out
}

proof fn lemma_digits_value_push(s: Seq<char>, c: char)
    ensures
        digits_value(s.push(c)) == (digits_value(s) * 10 + (c as u32 - '0' as u32)) as nat,
{
    assert(s.push(c).drop_last() =~= s);
}

proof fn lemma_digits_value_grows(s: Seq<char>, k: int)
    requires
        all_digits(s),
        0 <= k <= s.len(),
    ensures
        digits_value(s.take(k)) <= digits_value(s),
    decreases s.len() - k,
{
    if k == s.len() {
        assert(s.take(k) =~= s);
    } else {
        lemma_digits_value_grows(s, k + 1);
        assert(s.take(k + 1) =~= s.take(k).push(s[k]));
        lemma_digits_value_push(s.take(k), s[k]);
        assert(is_digit(s[k]));
    }
}

/// Reads an unsigned number of at most `max` from its decimal digits.
pub fn parse_number(s: &str, max: u64) -> (r: Option<u64>)
    ensures
        match r {
            Some(n) => number_of(s@, max as nat) == Some(n as nat),
            None => number_of(s@, max as nat) is None,
        },
{
    let chars = chars_of(s);
    let n: usize = chars.len();
    let start: usize = if n > 0 && chars[0] == '+' { 1 } else { 0 };
    let ghost d = s@.skip(start as int);
    proof {
        if start == 0 {
            assert(d =~= s@);
        } else {
            assert(d =~= s@.drop_first());
        }
    }
    if start == n {
        return None;
    }
    let mut value: u64 = 0;
    let mut i: usize = start;
    while i < n
        invariant
            start <= i <= n,
            n == chars.len(),
            chars@ == s@,
            d == s@.skip(start as int),
            d == (if s@.len() > 0 && s@[0] == '+' { s@.drop_first() } else { s@ }),
            forall|j: int| 0 <= j < i - start ==> is_digit(#[trigger] d[j]),
            value == digits_value(d.take(i - start)),
            value <= max,
        decreases n - i,
    {
        let c = chars[i];
        proof {
            assert(c == d[i - start]);
            assert(d.take(i - start + 1) =~= d.take(i - start).push(c));
            lemma_digits_value_push(d.take(i - start), c);
        }
        if c < '0' || c > '9' {
            return None;
        }
        let digit: u64 = (c as u32 - '0' as u32) as u64;
        if digit > max || value > max / 10 || value * 10 > max - digit {
            proof {
                assert(digits_value(d.take(i - start + 1)) > max);
                if all_digits(d) {
                    lemma_digits_value_grows(d, i - start + 1);
                }
            }
            return None;
        }
        value = value * 10 + digit;
        i += 1;
    }
    proof {
        assert(d.take(i - start) =~= d);
    }
    Some(value)
}

/// The decimal digits of a number.
pub fn number_text(n: u64) -> (r: String)
    ensures
        r@ == decimal(n as nat),
    decreases n,
{
    let c = ((n % 10) as u8 + 48u8) as char;
    if n < 10 {
        let mut out = String::new();
        out.push(c);
        proof {
            assert(out@ =~= decimal(n as nat));
        }
        out
    } else {
        let mut out = number_text(n / 10);
        out.push(c);
        out
    }
}

/// A text is parted at the first separator: what comes before it holds none, and
/// the two parts with the separator between them are the text.
pub proof fn law_split_once(s: Seq<char>, sep: char)
    ensures
        match split_once_at(s, sep) {
            Some((a, b)) => s == a + seq![sep] + b && !a.contains(sep),
            None => !s.contains(sep),
        },
{
    s.index_of_first_ensures(sep);
    match s.index_of_first(sep) {
        Some(i) => {
            assert(s =~= s.take(i) + seq![sep] + s.skip(i + 1));
            let front = s.take(i);
            if front.contains(sep) {
                let k = choose|k: int| 0 <= k < front.len() && front[k] == sep;
                assert(s[k] == sep);
            }
        },
        None => {},
    }
}

/// A text is parted from behind at the last separator: what comes after it holds
/// none.
pub proof fn law_rsplit_once(s: Seq<char>, sep: char)
    ensures
        match rsplit_once_at(s, sep) {
            Some((a, b)) => s == a + seq![sep] + b && !b.contains(sep),
            None => !s.contains(sep),
        },
{
    s.index_of_last_ensures(sep);
    match s.index_of_last(sep) {
        Some(i) => {
            assert(s =~= s.take(i) + seq![sep] + s.skip(i + 1));
            let rest = s.skip(i + 1);
            if rest.contains(sep) {
                let k = choose|k: int| 0 <= k < rest.len() && rest[k] == sep;
                assert(s[i + 1 + k] == sep);
            }
        },
        None => {},
    }
}

/// The pieces of a text hold no separator, and there is one more of them than
/// there are separators; put together again they are the text.
pub proof fn law_pieces(s: Seq<char>, sep: char)
    ensures
        pieces(s, sep).len() > 0,
        forall|i: int| 0 <= i < pieces(s, sep).len() ==> !(#[trigger] pieces(s, sep)[i]).contains(sep),
        pieces(s, sep).len() == 1 + s.filter(|c: char| c == sep).len(),
        s.len() == (pieces(s, sep).len() - 1) + pieces(s, sep).fold_left(
            0int,
            |n: int, p: Seq<char>| n + p.len(),
        ),
        s.contains(sep) ==> (pieces(s, sep)[0] + seq![sep]).is_prefix_of(s) && pieces(s, sep).skip(1)
            == pieces(s.skip(pieces(s, sep)[0].len() as int + 1), sep),
        !s.contains(sep) ==> pieces(s, sep) == seq![s],
    decreases s.len(),
{
    s.index_of_first_ensures(sep);
    let is_sep = |c: char| c == sep;
    let count = |n: int, p: Seq<char>| n + p.len();
    reveal(Seq::filter);
    match s.index_of_first(sep) {
        Some(i) => {
            let a = s.take(i);
            let b = s.skip(i + 1);
            law_pieces(b, sep);
            let r = pieces(s, sep);
            assert(r =~= seq![a] + pieces(b, sep));
            assert(r[0] == a);
            if a.contains(sep) {
                let k = choose|k: int| 0 <= k < a.len() && a[k] == sep;
                assert(s[k] == sep);
            }
            assert forall|k: int| 0 <= k < r.len() implies !(#[trigger] r[k]).contains(sep) by {
                if k > 0 {
                    assert(r[k] == pieces(b, sep)[k - 1]);
                }
            }
            assert(s =~= a + (seq![sep] + b));
            Seq::filter_distributes_over_add(a, seq![sep] + b, is_sep);
            b.lemma_filter_prepend(sep, is_sep);
            assert(a.filter(is_sep).len() == 0) by {
                if a.filter(is_sep).len() > 0 {
                    let x = a.filter(is_sep)[0];
                    assert(a.filter(is_sep).contains(x));
                    a.lemma_filter_contains_rev(is_sep, x);
                    a.lemma_filter_pred(is_sep, 0);
                }
            }
            assert(is_sep(sep));
            lemma_fold_from(pieces(b, sep), a.len() as int);
            assert(r.drop_first() =~= pieces(b, sep));
            r.lemma_fold_left_alt(0int, count);
            pieces(b, sep).lemma_fold_left_alt(a.len() as int, count);
            assert((a + seq![sep]) =~= s.take(i + 1));
            assert(r.skip(1) =~= pieces(b, sep));
            assert(s[i] == sep);
            assert(s.contains(sep));
        },
        None => {
            let r = pieces(s, sep);
            assert(r =~= seq![s]);
            assert(s.filter(is_sep).len() == 0) by {
                if s.filter(is_sep).len() > 0 {
                    let x = s.filter(is_sep)[0];
                    assert(s.filter(is_sep).contains(x));
                    s.lemma_filter_contains_rev(is_sep, x);
                    s.lemma_filter_pred(is_sep, 0);
                }
            }
            reveal_with_fuel(Seq::fold_left, 3);
            assert(r.drop_last() =~= seq![]);
            assert(r.last() == s);
        },
    }
}

proof fn lemma_fold_from(v: Seq<Seq<char>>, n: int)
    ensures
        v.fold_left(n, |n: int, p: Seq<char>| n + p.len()) == n + v.fold_left(
            0int,
            |n: int, p: Seq<char>| n + p.len(),
        ),
    decreases v.len(),
{
    reveal_with_fuel(Seq::fold_left, 2);
    if v.len() > 0 {
        lemma_fold_from(v.drop_last(), n);
    }
}

/// Trimming takes white space from both ends and nothing else: what is left
/// neither begins nor ends with it, and stands in the text between white space.
pub proof fn law_trimmed(s: Seq<char>)
    ensures
        ({
            let t = trimmed(s);
            &&& t.len() > 0 ==> !is_space(t[0]) && !is_space(t.last())
            &&& exists|i: int|
                0 <= i && i + t.len() <= s.len() && t == #[trigger] s.skip(i).take(
                    t.len() as int,
                ) && (forall|k: int| 0 <= k < i ==> is_space(#[trigger] s[k])) && forall|k: int|
                    i + t.len() <= k < s.len() ==> is_space(#[trigger] s[k])
        }),
        is_space(' '),
        is_space('\t'),
        is_space('\n'),
        is_space('\r'),
{
    let a = trim_start_of(s);
    let t = trim_end_of(a);
    lemma_trim_start(s);
    lemma_trim_end(a);
    let i = s.len() - a.len();
    assert(t =~= s.skip(i).take(t.len() as int)) by {
        assert(t =~= a.take(t.len() as int));
        assert(a =~= s.skip(i));
    }
    assert forall|k: int| i + t.len() <= k < s.len() implies is_space(#[trigger] s[k]) by {
        assert(a[k - i] == s[k]);
    }
    assert forall|k: int| 0 <= k < i implies is_space(#[trigger] s[k]) by {}
    assert(trimmed(s) == t);
    if t.len() > 0 {
        assert(t[0] == a[0]);
    }
}

proof fn lemma_trim_start(s: Seq<char>)
    ensures
        ({
            let t = trim_start_of(s);
            &&& t.len() <= s.len()
            &&& t == s.skip(s.len() - t.len())
            &&& forall|k: int| 0 <= k < s.len() - t.len() ==> is_space(#[trigger] s[k])
            &&& t.len() > 0 ==> !is_space(t[0])
        }),
    decreases s.len(),
{
    if s.len() > 0 && is_space(s[0]) {
        let rest = s.drop_first();
        lemma_trim_start(rest);
        let t = trim_start_of(s);
        assert(t =~= s.skip(s.len() - t.len()));
        assert forall|k: int| 0 <= k < s.len() - t.len() implies is_space(#[trigger] s[k]) by {
            if k > 0 {
                assert(s[k] == rest[k - 1]);
            }
        }
    } else {
        assert(s.skip(0) =~= s);
    }
}

proof fn lemma_trim_end(s: Seq<char>)
    ensures
        ({
            let t = trim_end_of(s);
            &&& t.len() <= s.len()
            &&& t == s.take(t.len() as int)
            &&& forall|k: int| t.len() <= k < s.len() ==> is_space(#[trigger] s[k])
            &&& t.len() > 0 ==> !is_space(t.last())
        }),
    decreases s.len(),
{
    if s.len() > 0 && is_space(s.last()) {
        let rest = s.drop_last();
        lemma_trim_end(rest);
        let t = trim_end_of(s);
        assert(t =~= s.take(t.len() as int));
        assert forall|k: int| t.len() <= k < s.len() implies is_space(#[trigger] s[k]) by {
            if k < rest.len() {
                assert(s[k] == rest[k]);
            }
        }
    } else {
        assert(s.take(s.len() as int) =~= s);
    }
}

/// A number is written in decimal digits that spell it: reading them gives the
/// number back.
pub proof fn law_decimal(n: nat)
    ensures
        decimal(n).len() > 0,
        all_digits(decimal(n)),
        digits_value(decimal(n)) == n,
        number_of(decimal(n), n) == Some(n),
        n > 0 ==> decimal(n)[0] != '0',
    decreases n,
{
    reveal_with_fuel(digits_value, 2);
    if n < 10 {
        let d = decimal(n);
        assert(d =~= seq![digit_char(n)]);
        assert(d.drop_last() =~= seq![]);
        assert(d.last() as u32 - '0' as u32 == n);
    } else {
        law_decimal(n / 10);
        let d = decimal(n);
        assert(d.drop_last() =~= decimal(n / 10));
        assert(d.last() as u32 - '0' as u32 == n % 10);
        assert(d[0] == decimal(n / 10)[0]);
    }
}

/// A piece in front of a separator is a piece by itself, and so is one behind it:
/// the others are those of the rest.
pub proof fn law_pieces_apart(a: Seq<char>, b: Seq<char>, sep: char)
    ensures
        !a.contains(sep) ==> pieces(a + seq![sep] + b, sep) == seq![a] + pieces(b, sep),
        pieces(a + seq![sep] + b, sep) == pieces(a, sep) + pieces(b, sep),
    decreases a.len(),
{
    let s = a + seq![sep] + b;
    s.index_of_first_ensures(sep);
    a.index_of_first_ensures(sep);
    assert(s[a.len() as int] == sep);
    let i = s.index_of_first(sep)->0;
    match a.index_of_first(sep) {
        None => {
            if i < a.len() {
                assert(a[i] == sep);
            }
            assert(i == a.len());
            assert(s.take(i) =~= a);
            assert(s.skip(i + 1) =~= b);
            assert(pieces(a, sep) =~= seq![a]);
        },
        Some(k) => {
            assert(a[k] == sep);
            assert(s[k] == sep);
            if i < k {
                assert(a[i] == sep);
            }
            assert(i == k);
            let rest = a.skip(k + 1);
            law_pieces_apart(rest, b, sep);
            assert(s.take(i) =~= a.take(k));
            assert(s.skip(i + 1) =~= rest + seq![sep] + b);
            assert((seq![a.take(k)] + pieces(rest, sep)) + pieces(b, sep) =~= seq![a.take(k)] + (
            pieces(rest, sep) + pieces(b, sep)));
        },
    }
}

} // verus!
