//! Media that another server sends: the two-part body, and the name of the file
//! in it.

use vstd::prelude::*;
use vstd::string::*;
use vstd::utf8::decode_utf8;
use vstd::utf8::encode_utf8;
use vstd::utf8::valid_utf8;

use crate::text::cat;
use crate::text::chars_of;
use crate::text::decimal;
use crate::text::lowered;
use crate::text::number_text;
use crate::text::opt_string;
use crate::text::pieces;
use crate::text::split;
use crate::text::split_once;
use crate::text::split_once_at;
use crate::text::str_eq;
use crate::text::texts;
use crate::text::to_lower;
use crate::text::trim;
use crate::text::trimmed;

verus! {

/// A file that another server sent.
#[derive(Debug)]
pub struct MediaResponse {
    pub content_type: String,
    pub filename: Option<String>,
    pub bytes: Vec<u8>,
}

/// What `std::str::from_utf8` says of bytes that are not UTF-8.
pub uninterp spec fn utf8_fault(bytes: Seq<u8>) -> Seq<char>;

/// `std::str::from_utf8`: the text that bytes spell in UTF-8. It succeeds
/// exactly on valid UTF-8; what it says otherwise depends on the bytes alone.
#[verifier::external_body]
fn utf8_text(bytes: &[u8]) -> (r: Result<String, String>)
    ensures
        match r {
            Ok(s) => valid_utf8(bytes@) && s@ == decode_utf8(bytes@),
            Err(e) => !valid_utf8(bytes@) && e@ == utf8_fault(bytes@),
        },
{
    match std::str::from_utf8(bytes) {
        Ok(s) => Ok(s.to_owned()),
        Err(e) => Err(e.to_string()),
    }
}

/// Whether a text is a name, in any case.
pub open spec fn is_name(s: Seq<char>, name: Seq<char>) -> bool {
    lowered(s) == name
}

fn names(s: &str, name: &str) -> (r: bool)
    ensures
        r == is_name(s@, name@),
{
    let l = to_lower(s);
    str_eq(l.as_str(), name)
}

/// A value without the quotes around it, if it has them.
pub open spec fn unquoted(v: Seq<char>) -> Seq<char> {
    if v.len() >= 2 && v[0] == '"' && v.last() == '"' {
        v.subrange(1, v.len() - 1)
    } else {
        v
    }
}

fn unquote(v: &str) -> (r: &str)
    ensures
        r@ == unquoted(v@),
{
    let chars = chars_of(v);
    let n: usize = chars.len();
    if n >= 2 && chars[0] == '"' && chars[n - 1] == '"' {
        v.substring_char(1, n - 1)
    } else {
        v
    }
}

/// The boundary that the parameters of a content type state: the first one that
/// is not empty. A parameter without a value ends the search.
pub open spec fn boundary_in(params: Seq<Seq<char>>) -> Option<Seq<char>>
    decreases params.len(),
{
    if params.len() == 0 {
        None
    } else {
        match split_once_at(trimmed(params[0]), '=') {
            None => None,
            Some((name, value)) => if is_name(name, "boundary"@) && unquoted(trimmed(value)).len()
                > 0 {
                Some(unquoted(trimmed(value)))
            } else {
                boundary_in(params.drop_first())
            },
        }
    }
}

/// The boundary between the parts of a body, from its content type.
pub fn parse_multipart_boundary(content_type: &str) -> (r: Option<String>)
    ensures
        opt_string(r) == boundary_in(pieces(content_type@, ';').drop_first()),
{
    let parts = split(content_type, ';');
    let ghost t = texts(parts@);
    let ghost want = pieces(content_type@, ';').drop_first();
    proof {
        assert(t.len() >= 1);
        assert(want =~= t.skip(1));
    }
    let mut i: usize = 1;
    while i < parts.len()
        invariant
            1 <= i <= parts.len(),
            t == texts(parts@),
            want == pieces(content_type@, ';').drop_first(),
            boundary_in(want) == boundary_in(t.skip(i as int)),
        decreases parts.len() - i,
    {
        proof {
            assert(t.skip(i as int)[0] == parts@[i as int]@);
            assert(t.skip(i as int).drop_first() =~= t.skip(i + 1));
        }
        let param = trim(parts[i].as_str());
        match split_once(param, '=') {
            None => {
                return None;
            },
            Some((name, value)) => {
                if names(name, "boundary") {
                    let v = unquote(trim(value));
                    if !v.is_empty() {
                        return Some(v.to_owned());
                    }
                }
            },
        }
        i += 1;
    }
    None
}

pub open spec fn is_hex_byte(b: u8) -> bool {
    (48 <= b <= 57) || (97 <= b <= 102) || (65 <= b <= 70)
}

/// The value of a hexadecimal digit.
pub open spec fn hex_byte(b: u8) -> int {
    if 48 <= b <= 57 {
        b - 48
    } else if 97 <= b <= 102 {
        b - 97 + 10
    } else {
        b - 65 + 10
    }
}

/// Bytes with every percent sign and the two digits behind it replaced by the
/// byte that they stand for. A percent sign with fewer than two bytes behind it
/// stands for itself; one with other bytes behind it is an error.
pub open spec fn percent_decoded(b: Seq<u8>) -> Option<Seq<u8>>
    decreases b.len(),
{
    if b.len() == 0 {
        Some(seq![])
    } else if b[0] == 37 && b.len() > 2 {
        if is_hex_byte(b[1]) && is_hex_byte(b[2]) {
            match percent_decoded(b.skip(3)) {
                Some(rest) => Some(seq![(hex_byte(b[1]) * 16 + hex_byte(b[2])) as u8] + rest),
                None => None,
            }
        } else {
            None
        }
    } else {
        match percent_decoded(b.skip(1)) {
            Some(rest) => Some(seq![b[0]] + rest),
            None => None,
        }
    }
}

fn hex_of(b: u8) -> (r: Option<u8>)
    ensures
        match r {
            Some(v) => is_hex_byte(b) && v == hex_byte(b) && v < 16,
            None => !is_hex_byte(b),
        },
{
    if 48 <= b && b <= 57 {
        Some(b - 48)
    } else if 97 <= b && b <= 102 {
        Some(b - 97 + 10)
    } else if 65 <= b && b <= 70 {
        Some(b - 65 + 10)
    } else {
        None
    }
}

proof fn lemma_decoded_step(
    whole: Seq<u8>,
    done: Seq<u8>,
    rest: Seq<u8>,
    x: u8,
    next: Seq<u8>,
)
    requires
        percent_decoded(whole) == (match percent_decoded(rest) {
            Some(r) => Some(done + r),
            None => None,
        }),
        percent_decoded(rest) == (match percent_decoded(next) {
            Some(r) => Some(seq![x] + r),
            None => None,
        }),
    ensures
        percent_decoded(whole) == (match percent_decoded(next) {
            Some(r) => Some(done.push(x) + r),
            None => None,
        }),
{
    if let Some(r) = percent_decoded(next) {
        assert(done + (seq![x] + r) =~= done.push(x) + r);
    }
}

fn percent_decode(b: &[u8]) -> (r: Option<Vec<u8>>)
    ensures
        match r {
            Some(v) => percent_decoded(b@) == Some(v@),
            None => percent_decoded(b@) is None,
        },
{
    let n: usize = b.len();
    let mut out: Vec<u8> = Vec::new();
    let mut i: usize = 0;
    proof {
        assert(b@.skip(0) =~= b@);
        if let Some(r) = percent_decoded(b@) {
            assert(out@ + r =~= r);
        }
    }
    while i < n
        invariant
            i <= n,
            n == b.len(),
            percent_decoded(b@) == (match percent_decoded(b@.skip(i as int)) {
                Some(r) => Some(out@ + r),
                None => None,
            }),
        decreases n - i,
    {
        let ghost rest = b@.skip(i as int);
        proof {
            assert(rest[0] == b@[i as int]);
            assert(rest.skip(1) =~= b@.skip(i + 1));
        }
        if b[i] == 37 && n - i > 2 {
            proof {
                assert(rest[1] == b@[i + 1]);
                assert(rest[2] == b@[i + 2]);
                assert(rest.skip(3) =~= b@.skip(i + 3));
            }
            match (hex_of(b[i + 1]), hex_of(b[i + 2])) {
                (Some(h), Some(l)) => {
                    let x: u8 = h * 16 + l;
                    proof {
                        lemma_decoded_step(b@, out@, rest, x, rest.skip(3));
                    }
                    out.push(x);
                    i += 3;
                },
                _ => {
                    return None;
                },
            }
        } else {
            proof {
                lemma_decoded_step(b@, out@, rest, b@[i as int], rest.skip(1));
            }
            out.push(b[i]);
            i += 1;
        }
    }
    proof {
        assert(b@.skip(i as int) =~= seq![]);
        assert(out@ + Seq::<u8>::empty() =~= out@);
    }
    Some(out)
}

/// The parts of an extended value: its character set, its language and its
/// encoded text, between the first two apostrophes.
pub open spec fn extended_parts(v: Seq<char>) -> (Seq<char>, Seq<char>) {
    match split_once_at(v, '\'') {
        None => (v, seq![]),
        Some((charset, rest)) => match split_once_at(rest, '\'') {
            None => (charset, seq![]),
            Some((_, encoded)) => (charset, encoded),
        },
    }
}

/// The text of an extended value, if it is UTF-8.
pub open spec fn extended_value(v: Seq<char>) -> Option<Seq<char>> {
    let (charset, encoded) = extended_parts(v);
    if is_name(charset, "utf-8"@) && encoded.len() > 0 {
        match percent_decoded(encode_utf8(encoded)) {
            Some(b) => if valid_utf8(b) {
                Some(decode_utf8(b))
            } else {
                None
            },
            None => None,
        }
    } else {
        None
    }
}

fn read_extended(v: &str) -> (r: Option<String>)
    ensures
        opt_string(r) == extended_value(v@),
{
    let (charset, encoded) = match split_once(v, '\'') {
        None => {
            proof {
                assert(extended_parts(v@).1.len() == 0);
            }
            return None;
        },
        Some((c, rest)) => match split_once(rest, '\'') {
            None => {
                proof {
                    assert(extended_parts(v@).1.len() == 0);
                }
                return None;
            },
            Some((_, e)) => (c, e),
        },
    };
    if !names(charset, "utf-8") || encoded.is_empty() {
        return None;
    }
    match percent_decode(encoded.as_bytes()) {
        Some(b) => match utf8_text(b.as_slice()) {
            Ok(s) => Some(s),
            Err(_) => None,
        },
        None => None,
    }
}

/// What one parameter says of the file's name: the extended form, the plain
/// form, each if the parameter is one.
pub open spec fn filename_param(p: Seq<char>) -> (Option<Seq<char>>, Option<Seq<char>>) {
    match split_once_at(trimmed(p), '=') {
        None => (None, None),
        Some((name, value)) => if is_name(trimmed(name), "filename*"@) {
            (extended_value(trimmed(value)), None)
        } else if is_name(trimmed(name), "filename"@) && unquoted(trimmed(value)).len() > 0 {
            (None, Some(unquoted(trimmed(value))))
        } else {
            (None, None)
        },
    }
}

/// The last of some options that is there.
pub open spec fn later(a: Option<Seq<char>>, b: Option<Seq<char>>) -> Option<Seq<char>> {
    if b is Some {
        b
    } else {
        a
    }
}

/// The extended and the plain name that some parameters state; the last of each
/// counts.
pub open spec fn filename_params(params: Seq<Seq<char>>) -> (Option<Seq<char>>, Option<Seq<char>>)
    decreases params.len(),
{
    if params.len() == 0 {
        (None, None)
    } else {
        let before = filename_params(params.drop_last());
        let last = filename_param(params.last());
        (later(before.0, last.0), later(before.1, last.1))
    }
}

/// The name of the file that a content disposition states: the extended form if
/// it has one, else the plain form.
pub open spec fn filename_of(value: Seq<char>) -> Option<Seq<char>> {
    let (extended, plain) = filename_params(pieces(value, ';').drop_first());
    if extended is Some {
        extended
    } else {
        plain
    }
}

/// The name of the file that a content disposition states.
pub fn parse_filename_from_content_disposition(value: &str) -> (r: Option<String>)
    ensures
        opt_string(r) == filename_of(value@),
{
    let parts = split(value, ';');
    let ghost t = texts(parts@);
    let ghost want = pieces(value@, ';').drop_first();
    proof {
        assert(t.len() >= 1);
        assert(want =~= t.skip(1));
        assert(t.subrange(1, 1) =~= seq![]);
    }
    let mut plain: Option<String> = None;
    let mut extended: Option<String> = None;
    let mut i: usize = 1;
    while i < parts.len()
        invariant
            1 <= i <= parts.len(),
            t == texts(parts@),
            filename_params(t.subrange(1, i as int)) == (opt_string(extended), opt_string(plain)),
        decreases parts.len() - i,
    {
        proof {
            let next = t.subrange(1, i + 1);
            assert(next.drop_last() =~= t.subrange(1, i as int));
            assert(next.last() == parts@[i as int]@);
        }
        let param = trim(parts[i].as_str());
        match split_once(param, '=') {
            None => {},
            Some((name, raw)) => {
                let name = trim(name);
                let raw = trim(raw);
                if names(name, "filename*") {
                    match read_extended(raw) {
                        Some(s) => {
                            extended = Some(s);
                        },
                        None => {},
                    }
                } else if names(name, "filename") {
                    let v = unquote(raw);
                    if !v.is_empty() {
                        plain = Some(v.to_owned());
                    }
                }
            },
        }
        i += 1;
    }
    proof {
        assert(t.subrange(1, i as int) =~= want);
    }
    match extended {
        Some(s) => Some(s),
        None => plain,
    }
}

/// Whether some bytes stand at a place.
pub open spec fn stands_at(body: Seq<u8>, m: Seq<u8>, i: int) -> bool {
    0 <= i && i + m.len() <= body.len() && body.subrange(i, i + m.len()) == m
}

/// The places before `n` at which some bytes stand, in order.
pub open spec fn places(body: Seq<u8>, m: Seq<u8>, n: int) -> Seq<int>
    decreases n,
{
    if n <= 0 {
        seq![]
    } else if stands_at(body, m, n - 1) {
        places(body, m, n - 1).push(n - 1)
    } else {
        places(body, m, n - 1)
    }
}

/// The bytes of the line in front of each part.
pub open spec fn marker(boundary: Seq<char>) -> Seq<u8> {
    encode_utf8("--"@ + boundary)
}

pub open spec fn crlf() -> Seq<u8> {
    seq![13u8, 10u8]
}

/// The place of the first empty line between two places, `to` if there is none.
pub open spec fn header_end(body: Seq<u8>, from: int, to: int) -> int
    decreases to - from,
{
    if from + 4 > to {
        to
    } else if stands_at(body, crlf() + crlf(), from) {
        from
    } else {
        header_end(body, from + 1, to)
    }
}

/// The lines of a text, which end with a carriage return and a line feed.
pub open spec fn lines(s: Seq<char>) -> Seq<Seq<char>> {
    lines_from(s, 0, 0)
}

/// The lines of a text from `start` on, of which the first goes on at `at`.
pub open spec fn lines_from(s: Seq<char>, start: int, at: int) -> Seq<Seq<char>>
    decreases s.len() - at,
{
    if at + 1 >= s.len() {
        seq![s.subrange(start, s.len() as int)]
    } else if s[at] == '\r' && s[at + 1] == '\n' {
        seq![s.subrange(start, at)] + lines_from(s, at + 2, at + 2)
    } else {
        lines_from(s, start, at + 1)
    }
}

/// The value of the last line with a name, without white space around it.
pub open spec fn header_value(v: Seq<Seq<char>>, name: Seq<char>) -> Option<Seq<char>>
    decreases v.len(),
{
    if v.len() == 0 {
        None
    } else {
        match split_once_at(v.last(), ':') {
            Some((n, value)) => if is_name(trimmed(n), name) {
                Some(trimmed(value))
            } else {
                header_value(v.drop_last(), name)
            },
            None => header_value(v.drop_last(), name),
        }
    }
}

/// The lines of a text.
fn split_lines(s: &str) -> (r: Vec<String>)
    ensures
        texts(r@) == lines(s@),
{
    let chars = chars_of(s);
    let n: usize = chars.len();
    let mut out: Vec<String> = Vec::new();
    let mut start: usize = 0;
    let mut at: usize = 0;
    proof {
        assert(texts(out@) + lines_from(s@, 0, 0) =~= lines_from(s@, 0, 0));
    }
    while n - at >= 2
        invariant
            start <= at <= n,
            n == chars.len(),
            chars@ == s@,
            texts(out@) + lines_from(s@, start as int, at as int) == lines(s@),
        decreases n - at,
    {
        if chars[at] == '\r' && chars[at + 1] == '\n' {
            let line = s.substring_char(start, at).to_owned();
            let ghost before = texts(out@);
            proof {
                crate::text::lemma_texts_push(out@, line);
            }
            out.push(line);
            proof {
                let rest = lines_from(s@, at + 2, at + 2);
                assert(before.push(line@) + rest =~= before + (seq![line@] + rest));
            }
            start = at + 2;
            at = start;
        } else {
            at += 1;
        }
    }
    let line = s.substring_char(start, n).to_owned();
    let ghost before = texts(out@);
    proof {
        crate::text::lemma_texts_push(out@, line);
    }
    out.push(line);
    proof {
        assert(before.push(line@) =~= before + seq![line@]);
    }
    out
}

fn find_header(v: &Vec<String>, name: &str) -> (r: Option<String>)
    ensures
        opt_string(r) == header_value(texts(v@), name@),
{
    let ghost t = texts(v@);
    let mut i: usize = v.len();
    proof {
        assert(t.take(i as int) =~= t);
    }
    while i > 0
        invariant
            i <= v.len(),
            t == texts(v@),
            header_value(t, name@) == header_value(t.take(i as int), name@),
        decreases i,
    {
        proof {
            assert(t.take(i as int).last() == v@[i - 1]@);
            assert(t.take(i as int).drop_last() =~= t.take(i - 1));
        }
        match split_once(v[i - 1].as_str(), ':') {
            Some((n, value)) => {
                if names(trim(n), name) {
                    return Some(trim(value).to_owned());
                }
            },
            None => {},
        }
        i -= 1;
    }
    None
}

/// A part of a body: the place behind its marker line, and the place at which it
/// ends.
pub open spec fn part_start(body: Seq<u8>, m: Seq<u8>, second: int) -> int {
    if stands_at(body, crlf(), second + m.len()) {
        second + m.len() + 2
    } else {
        second + m.len()
    }
}

/// The end of a part's content: the line break in front of the next marker is
/// not part of it.
pub open spec fn content_end(body: Seq<u8>, part_end: int) -> int {
    if part_end >= 2 && body.subrange(part_end - 2, part_end) == crlf() {
        part_end - 2
    } else {
        part_end
    }
}

/// What a two-part body says of the file in it: the part between the second and
/// the third marker, with the headers in front of its first empty line.
pub open spec fn is_media_of(
    body: Seq<u8>,
    boundary: Seq<char>,
    r: Result<MediaResponse, String>,
) -> bool {
    let m = marker(boundary);
    let at = places(body, m, body.len() as int);
    if at.len() < 3 {
        r matches Err(e) && e@ == "expected at least 3 boundary markers, got "@ + decimal(at.len())
    } else {
        let from = part_start(body, m, at[1]);
        let to = at[2];
        let gap = header_end(body, from, to);
        let end = content_end(body, to);
        if gap >= to {
            r matches Err(e) && e@ == "missing header terminator in media part"@
        } else if gap + 4 > end {
            r matches Err(e) && e@ == "media part has no content section"@
        } else {
            let head = body.subrange(from, gap);
            if !valid_utf8(head) {
                r matches Err(e) && e@ == "non-UTF-8 part headers: "@ + utf8_fault(head)
            } else {
                let v = lines(decode_utf8(head));
                r matches Ok(x) && {
                    &&& x.bytes@ == body.subrange(gap + 4, end)
                    &&& x.content_type@ == (match header_value(v, "content-type"@) {
                        Some(c) => c,
                        None => "application/octet-stream"@,
                    })
                    &&& opt_string(x.filename) == (match header_value(v, "content-disposition"@) {
                        Some(d) => filename_of(d),
                        None => None,
                    })
                }
            }
        }
    }
}

fn bytes_at(body: &[u8], m: &[u8], i: usize) -> (r: bool)
    ensures
        r == stands_at(body@, m@, i as int),
{
    if i > body.len() || body.len() - i < m.len() {
        return false;
    }
    let mut j: usize = 0;
    while j < m.len()
        invariant
            j <= m.len(),
            i + m.len() <= body.len(),
            forall|k: int| 0 <= k < j ==> body@[i + k] == m@[k],
        decreases m.len() - j,
    {
        if body[i + j] != m[j] {
            proof {
                assert(body@.subrange(i as int, i + m.len())[j as int] != m@[j as int]);
            }
            return false;
        }
        j += 1;
    }
    proof {
        assert(body@.subrange(i as int, i + m.len()) =~= m@);
    }
    true
}

fn copy_span(body: &[u8], from: usize, to: usize) -> (r: Vec<u8>)
    requires
        from <= to <= body.len(),
    ensures
        r@ == body@.subrange(from as int, to as int),
{
    let mut out: Vec<u8> = Vec::new();
    let mut i: usize = from;
    while i < to
        invariant
            from <= i <= to <= body.len(),
            out@ =~= body@.subrange(from as int, i as int),
        decreases to - i,
    {
        out.push(body[i]);
        i += 1;
    }
    out
}

proof fn lemma_places(body: Seq<u8>, m: Seq<u8>, n: int)
    requires
        0 <= n <= body.len(),
    ensures
        places(body, m, n).len() <= n,
        forall|k: int|
            0 <= k < places(body, m, n).len() ==> {
                &&& 0 <= #[trigger] places(body, m, n)[k] < n
                &&& stands_at(body, m, places(body, m, n)[k])
            },
    decreases n,
{
    if n > 0 {
        lemma_places(body, m, n - 1);
    }
}

/// How many places there are, and the second and third of them.
fn find_places(body: &[u8], m: &[u8]) -> (r: (usize, usize, usize))
    ensures
        ({
            let at = places(body@, m@, body@.len() as int);
            &&& r.0 == at.len()
            &&& at.len() >= 2 ==> r.1 == at[1]
            &&& at.len() >= 3 ==> r.2 == at[2]
        }),
{
    let mut count: usize = 0;
    let mut second: usize = 0;
    let mut third: usize = 0;
    let mut i: usize = 0;
    while i < body.len()
        invariant
            i <= body.len(),
            count <= i,
            count == places(body@, m@, i as int).len(),
            count >= 2 ==> second == places(body@, m@, i as int)[1],
            count >= 3 ==> third == places(body@, m@, i as int)[2],
        decreases body.len() - i,
    {
        if bytes_at(body, m, i) {
            if count == 1 {
                second = i;
            }
            if count == 2 {
                third = i;
            }
            count += 1;
        }
        i += 1;
    }
    (count, second, third)
}

fn find_header_end(body: &[u8], from: usize, to: usize) -> (r: usize)
    requires
        to <= body.len(),
    ensures
        r as int == header_end(body@, from as int, to as int),
        r < to ==> from <= r && r + 4 <= to,
{
    let mut gap: Vec<u8> = Vec::new();
    gap.push(13);
    gap.push(10);
    gap.push(13);
    gap.push(10);
    proof {
        assert(gap@ =~= crlf() + crlf());
    }
    let mut i: usize = from;
    while i < to && to - i >= 4
        invariant
            from <= i,
            to <= body.len(),
            gap@ == crlf() + crlf(),
            header_end(body@, from as int, to as int) == header_end(
                body@,
                i as int,
                to as int,
            ),
        decreases to - i,
    {
        if bytes_at(body, gap.as_slice(), i) {
            return i;
        }
        i += 1;
    }
    to
}

/// Reads the file out of a two-part body.
pub fn parse_multipart_media(body: &[u8], boundary: &str) -> (r: Result<MediaResponse, String>)
    ensures
        is_media_of(body@, boundary@, r),
{
    let line = cat("--", boundary);
    let m = line.as_str().as_bytes();
    let (count, second, third) = find_places(body, m);
    let ghost at = places(body@, m@, body@.len() as int);
    proof {
        lemma_places(body@, m@, body@.len() as int);
        assert(m@ == marker(boundary@));
    }
    if count < 3 {
        return Err(
            cat("expected at least 3 boundary markers, got ", number_text(count as u64).as_str()),
        );
    }
    let mut lb: Vec<u8> = Vec::new();
    lb.push(13);
    lb.push(10);
    proof {
        assert(lb@ =~= crlf());
        assert(0 <= at[1] < body@.len());
        assert(stands_at(body@, m@, at[1]));
        assert(0 <= at[2] < body@.len());
    }
    let n: usize = body.len();
    proof {
        assert(second + m@.len() <= n);
    }
    let behind: usize = second + m.len();
    let from: usize = if bytes_at(body, lb.as_slice(), behind) {
        behind + 2
    } else {
        behind
    };
    let gap: usize = find_header_end(body, from, third);
    if gap >= third {
        return Err("missing header terminator in media part".to_owned());
    }
    let end: usize = if third >= 2 && bytes_at(body, lb.as_slice(), third - 2) {
        third - 2
    } else {
        third
    };
    if gap + 4 > end {
        return Err("media part has no content section".to_owned());
    }
    let head = copy_span(body, from, gap);
    let text = match utf8_text(head.as_slice()) {
        Ok(s) => s,
        Err(e) => {
            return Err(cat("non-UTF-8 part headers: ", e.as_str()));
        },
    };
    let v = split_lines(text.as_str());
    let content_type = match find_header(&v, "content-type") {
        Some(c) => c,
        None => "application/octet-stream".to_owned(),
    };
    let filename = match find_header(&v, "content-disposition") {
        Some(d) => parse_filename_from_content_disposition(d.as_str()),
        None => None,
    };
    Ok(MediaResponse { content_type, filename, bytes: copy_span(body, gap + 4, end) })
}

/// The boundary of a body is stated by the first parameter that names one that is
/// not empty, in quotes or not, provided every parameter before it has a value.
pub proof fn law_boundaries(params: Seq<Seq<char>>)
    ensures
        match boundary_in(params) {
            Some(b) => b.len() > 0 && exists|i: int|
                0 <= i < params.len() && (split_once_at(trimmed(#[trigger] params[i]), '=') matches Some(
                    (name, value),
                ) && lowered(name) == "boundary"@ && unquoted(trimmed(value)) == b) && forall|j: int|
                    0 <= j < i ==> (split_once_at(trimmed(#[trigger] params[j]), '=') matches Some(
                        (name, value),
                    ) && !(lowered(name) == "boundary"@ && unquoted(trimmed(value)).len() > 0)),
            None => forall|i: int|
                0 <= i < params.len() && (split_once_at(trimmed(#[trigger] params[i]), '=') matches Some(
                    (name, value),
                ) && lowered(name) == "boundary"@ && unquoted(trimmed(value)).len() > 0)
                    ==> exists|j: int|
                    0 <= j < i && split_once_at(trimmed(#[trigger] params[j]), '=') is None,
        },
    decreases params.len(),
{
    if params.len() > 0 {
        let rest = params.drop_first();
        match split_once_at(trimmed(params[0]), '=') {
            None => {
                assert forall|i: int|
                    0 <= i < params.len() && (split_once_at(
                        trimmed(#[trigger] params[i]),
                        '=',
                    ) matches Some((name, value)) && lowered(name) == "boundary"@ && unquoted(
                        trimmed(value),
                    ).len() > 0) implies exists|j: int|
                    0 <= j < i && split_once_at(trimmed(#[trigger] params[j]), '=') is None by {
                    assert(split_once_at(trimmed(params[0]), '=') is None);
                }
            },
            Some((name, value)) => {
                if is_name(name, "boundary"@) && unquoted(trimmed(value)).len() > 0 {
                    assert(split_once_at(trimmed(params[0]), '=') is Some);
                } else {
                    law_boundaries(rest);
                    match boundary_in(rest) {
                        Some(b) => {
                            let i = choose|i: int|
                                0 <= i < rest.len() && (split_once_at(
                                    trimmed(#[trigger] rest[i]),
                                    '=',
                                ) matches Some((name, value)) && lowered(name) == "boundary"@
                                    && unquoted(trimmed(value)) == b) && forall|j: int|
                                    0 <= j < i ==> (split_once_at(
                                        trimmed(#[trigger] rest[j]),
                                        '=',
                                    ) matches Some((name, value)) && !(lowered(name)
                                        == "boundary"@ && unquoted(trimmed(value)).len() > 0));
                            assert(params[i + 1] == rest[i]);
                            assert forall|j: int| 0 <= j < i + 1 implies (split_once_at(
                                trimmed(#[trigger] params[j]),
                                '=',
                            ) matches Some((name, value)) && !(lowered(name) == "boundary"@
                                && unquoted(trimmed(value)).len() > 0)) by {
                                if j > 0 {
                                    assert(rest[j - 1] == params[j]);
                                }
                            }
                        },
                        None => {
                            assert forall|i: int|
                                0 <= i < params.len() && (split_once_at(
                                    trimmed(#[trigger] params[i]),
                                    '=',
                                ) matches Some((name, value)) && lowered(name) == "boundary"@
                                    && unquoted(trimmed(value)).len() > 0) implies exists|j: int|
                                0 <= j < i && split_once_at(trimmed(#[trigger] params[j]), '=')
                                    is None by {
                                assert(i > 0);
                                assert(rest[i - 1] == params[i]);
                                let j = choose|j: int|
                                    0 <= j < i - 1 && split_once_at(
                                        trimmed(#[trigger] rest[j]),
                                        '=',
                                    ) is None;
                                assert(params[j + 1] == rest[j]);
                            }
                        },
                    }
                }
            },
        }
    }
}

/// Quotes around a value are taken off, and only where there are two.
pub proof fn law_unquoted(v: Seq<char>)
    ensures
        unquoted(seq!['"'] + v + seq!['"']) == v,
        v.len() == 0 || v[0] != '"' || v.last() != '"' ==> unquoted(v) == v,
{
    let q = seq!['"'] + v + seq!['"'];
    assert(q.subrange(1, q.len() - 1) =~= v);
    assert(q.last() == '"' && q[0] == '"');
}

/// The last parameter that states a name of a form counts, and the extended form
/// before the plain one.
pub proof fn law_filenames(params: Seq<Seq<char>>)
    ensures
        match filename_params(params).0 {
            Some(n) => exists|i: int|
                0 <= i < params.len() && filename_param(#[trigger] params[i]).0 == Some(n)
                    && forall|j: int|
                    i < j < params.len() ==> filename_param(#[trigger] params[j]).0 is None,
            None => forall|j: int|
                0 <= j < params.len() ==> filename_param(#[trigger] params[j]).0 is None,
        },
        match filename_params(params).1 {
            Some(n) => exists|i: int|
                0 <= i < params.len() && filename_param(#[trigger] params[i]).1 == Some(n)
                    && forall|j: int|
                    i < j < params.len() ==> filename_param(#[trigger] params[j]).1 is None,
            None => forall|j: int|
                0 <= j < params.len() ==> filename_param(#[trigger] params[j]).1 is None,
        },
    decreases params.len(),
{
    if params.len() > 0 {
        let front = params.drop_last();
        let last = params.len() - 1;
        law_filenames(front);
        assert forall|j: int| 0 <= j < front.len() implies front[j] == #[trigger] params[j] by {}
        let here = filename_param(params[last]);
        if here.0 is Some {
            assert(filename_param(params[last]).0 == filename_params(params).0);
        } else if let Some(n) = filename_params(front).0 {
            let i = choose|i: int|
                0 <= i < front.len() && filename_param(#[trigger] front[i]).0 == Some(n)
                    && forall|j: int|
                    i < j < front.len() ==> filename_param(#[trigger] front[j]).0 is None;
            assert(params[i] == front[i]);
            assert forall|j: int| i < j < params.len() implies filename_param(
                #[trigger] params[j],
            ).0 is None by {
                if j < front.len() {
                    assert(front[j] == params[j]);
                }
            }
        } else {
            assert forall|j: int| 0 <= j < params.len() implies filename_param(
                #[trigger] params[j],
            ).0 is None by {
                if j < front.len() {
                    assert(front[j] == params[j]);
                }
            }
        }
        if here.1 is Some {
            assert(filename_param(params[last]).1 == filename_params(params).1);
        } else if let Some(n) = filename_params(front).1 {
            let i = choose|i: int|
                0 <= i < front.len() && filename_param(#[trigger] front[i]).1 == Some(n)
                    && forall|j: int|
                    i < j < front.len() ==> filename_param(#[trigger] front[j]).1 is None;
            assert(params[i] == front[i]);
            assert forall|j: int| i < j < params.len() implies filename_param(
                #[trigger] params[j],
            ).1 is None by {
                if j < front.len() {
                    assert(front[j] == params[j]);
                }
            }
        } else {
            assert forall|j: int| 0 <= j < params.len() implies filename_param(
                #[trigger] params[j],
            ).1 is None by {
                if j < front.len() {
                    assert(front[j] == params[j]);
                }
            }
        }
    }
}

/// What a disposition says of a file's name: the extended form where there is one,
/// and the plain form only where there is none.
pub proof fn law_filename_forms(value: Seq<char>)
    ensures
        ({
            let p = filename_params(pieces(value, ';').drop_first());
            &&& p.0 is Some ==> filename_of(value) == p.0
            &&& p.0 is None ==> filename_of(value) == p.1
        }),
{
}

/// The places of a marker in a body are all places at which it stands, in order.
pub proof fn law_places(body: Seq<u8>, m: Seq<u8>, n: int)
    ensures
        forall|i: int| #[trigger]
            places(body, m, n).contains(i) <==> 0 <= i < n && i + m.len() <= body.len() && (forall|
                k: int,
            |
                0 <= k < m.len() ==> body[i + k] == #[trigger] m[k]),
        forall|i: int, j: int|
            0 <= i < j < places(body, m, n).len() ==> (#[trigger] places(body, m, n)[i]) < (
            #[trigger] places(body, m, n)[j]),
    decreases n,
{
    if n > 0 {
        let r = places(body, m, n);
        let s = places(body, m, n - 1);
        law_places(body, m, n - 1);
        if n - 1 + m.len() <= body.len() {
            let sub = body.subrange(n - 1, n - 1 + m.len());
            if stands_at(body, m, n - 1) {
                assert forall|k: int| 0 <= k < m.len() implies body[n - 1 + k] == #[trigger] m[k] by {
                    assert(sub[k] == m[k]);
                }
            } else if forall|k: int| 0 <= k < m.len() ==> body[n - 1 + k] == #[trigger] m[k] {
                assert(sub =~= m);
            }
        }
        assert forall|i: int| #[trigger] r.contains(i) <==> 0 <= i < n && i + m.len() <= body.len()
            && (forall|k: int| 0 <= k < m.len() ==> body[i + k] == #[trigger] m[k]) by {
            assert(s.contains(i) <==> 0 <= i < n - 1 && i + m.len() <= body.len() && (forall|
                k: int,
            |
                0 <= k < m.len() ==> body[i + k] == #[trigger] m[k]));
            if s.contains(i) {
                let k = choose|k: int| 0 <= k < s.len() && s[k] == i;
                assert(r[k] == i);
            }
            if stands_at(body, m, n - 1) {
                assert(r[s.len() as int] == n - 1);
                if r.contains(i) {
                    let k = choose|k: int| 0 <= k < r.len() && r[k] == i;
                    if k < s.len() {
                        assert(s[k] == i);
                    }
                }
            }
        }
        assert forall|i: int, j: int| 0 <= i < j < r.len() implies (#[trigger] r[i]) < (
        #[trigger] r[j]) by {
            assert(s.contains(s[i]));
            if j < s.len() {
                assert(s[i] < s[j]);
            }
        }
    }
}

/// The bytes of an empty line behind another: two line breaks.
pub open spec fn empty_line() -> Seq<u8> {
    seq![13u8, 10u8, 13u8, 10u8]
}

/// The headers of a part end at its first empty line.
pub proof fn law_header_end(body: Seq<u8>, from: int, to: int)
    requires
        from <= to,
    ensures
        from <= header_end(body, from, to) <= to,
        header_end(body, from, to) < to ==> header_end(body, from, to) + 4 <= to && stands_at(
            body,
            empty_line(),
            header_end(body, from, to),
        ),
        forall|i: int|
            from <= i < header_end(body, from, to) && i + 4 <= to ==> !#[trigger] stands_at(
                body,
                empty_line(),
                i,
            ),
    decreases to - from,
{
    assert(crlf() + crlf() =~= empty_line());
    if from + 4 <= to && !stands_at(body, crlf() + crlf(), from) {
        law_header_end(body, from + 1, to);
    }
}

/// Lines with line breaks between them.
pub open spec fn written_lines(v: Seq<Seq<char>>) -> Seq<char>
    decreases v.len(),
{
    if v.len() == 0 {
        seq![]
    } else if v.len() == 1 {
        v[0]
    } else {
        v[0] + seq!['\r', '\n'] + written_lines(v.drop_first())
    }
}

/// A text is taken apart into its lines: written with line breaks between them they
/// are the text again.
pub proof fn law_lines(s: Seq<char>)
    ensures
        written_lines(lines(s)) == s,
{
    lemma_lines(s, 0, 0);
    assert(s.subrange(0, s.len() as int) =~= s);
}

proof fn lemma_lines(s: Seq<char>, start: int, at: int)
    requires
        0 <= start <= at,
        start <= s.len(),
    ensures
        lines_from(s, start, at).len() > 0,
        written_lines(lines_from(s, start, at)) == s.subrange(start, s.len() as int),
    decreases s.len() - at,
{
    if at + 1 < s.len() {
        if s[at] == '\r' && s[at + 1] == '\n' {
            let rest = lines_from(s, at + 2, at + 2);
            let v = lines_from(s, start, at);
            lemma_lines(s, at + 2, at + 2);
            assert(v.drop_first() =~= rest);
            assert(written_lines(v) =~= s.subrange(start, s.len() as int));
        } else {
            lemma_lines(s, start, at + 1);
        }
    }
}

/// The value of a header is that of the last line with its name, in any case,
/// without white space around it.
pub proof fn law_header_values(v: Seq<Seq<char>>, name: Seq<char>)
    ensures
        match header_value(v, name) {
            Some(x) => exists|i: int|
                0 <= i < v.len() && (split_once_at(#[trigger] v[i], ':') matches Some((n, value))
                    && lowered(trimmed(n)) == name && x == trimmed(value)) && forall|j: int|
                    i < j < v.len() ==> !(split_once_at(#[trigger] v[j], ':') matches Some((n, _))
                        && lowered(trimmed(n)) == name),
            None => forall|j: int|
                0 <= j < v.len() ==> !(split_once_at(#[trigger] v[j], ':') matches Some((n, _))
                    && lowered(trimmed(n)) == name),
        },
    decreases v.len(),
{
    if v.len() > 0 {
        let front = v.drop_last();
        let last = v.len() - 1;
        law_header_values(front, name);
        let here = split_once_at(v[last], ':') matches Some((n, _)) && lowered(trimmed(n)) == name;
        if here {
            assert(split_once_at(v[last], ':') is Some);
        } else {
            match header_value(front, name) {
                Some(x) => {
                    let i = choose|i: int|
                        0 <= i < front.len() && (split_once_at(#[trigger] front[i], ':') matches Some(
                            (n, value),
                        ) && lowered(trimmed(n)) == name && x == trimmed(value)) && forall|j: int|
                            i < j < front.len() ==> !(split_once_at(
                                #[trigger] front[j],
                                ':',
                            ) matches Some((n, _)) && lowered(trimmed(n)) == name);
                    assert(v[i] == front[i]);
                    assert forall|j: int| i < j < v.len() implies !(split_once_at(
                        #[trigger] v[j],
                        ':',
                    ) matches Some((n, _)) && lowered(trimmed(n)) == name) by {
                        if j < front.len() {
                            assert(front[j] == v[j]);
                        }
                    }
                },
                None => {
                    assert forall|j: int| 0 <= j < v.len() implies !(split_once_at(
                        #[trigger] v[j],
                        ':',
                    ) matches Some((n, _)) && lowered(trimmed(n)) == name) by {
                        if j < front.len() {
                            assert(front[j] == v[j]);
                        }
                    }
                },
            }
        }
    }
}

/// The file in a two-part body is everything behind the empty line of the second
/// part, up to the line break in front of the third marker.
pub proof fn law_media(body: Seq<u8>, boundary: Seq<char>, x: MediaResponse)
    requires
        is_media_of(body, boundary, Ok(x)),
    ensures
        ({
            let at = places(body, marker(boundary), body.len() as int);
            exists|gap: int, end: int|
                at.len() >= 3 && at[1] <= gap && #[trigger] stands_at(
                    body,
                    empty_line(),
                    gap,
                ) && gap + 4 <= end <= at[2] && x.bytes@ == #[trigger] body.subrange(gap + 4, end)
                    && (end == at[2] || (end + 2 == at[2] && stands_at(
                    body,
                    seq![13u8, 10u8],
                    end,
                )))
        }),
{
    let m = marker(boundary);
    let at = places(body, m, body.len() as int);
    let from = part_start(body, m, at[1]);
    let to = at[2];
    let gap = header_end(body, from, to);
    let end = content_end(body, to);
    law_places(body, m, body.len() as int);
    assert(at[1] < at[2]);
    assert(at.contains(at[2]));
    if from <= to {
        law_header_end(body, from, to);
    }
    assert(stands_at(body, empty_line(), gap));
    assert(x.bytes@ == body.subrange(gap + 4, end));
}

} // verus!
