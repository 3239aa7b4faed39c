//! The `X-Matrix` authorization scheme: building, parsing and checking the
//! header that authenticates a server's request.

use vstd::prelude::*;
use vstd::string::*;

use crate::json::member;
use crate::json::members;
use crate::json::put;
use crate::json::Json;
use crate::json::JsonView;
use crate::text::chars_of;
use crate::text::is_space;
use crate::text::is_space_char;
use crate::text::lemma_index_of_first;
use crate::text::lemma_no_index_of_first;
use crate::text::lowered;
use crate::text::opt_string;
use crate::text::str_eq;
use crate::text::trim_end_of;
use crate::text::trim_start_of;
use crate::text::trimmed;

verus! {

/// The parameters of an `X-Matrix` authorization header.
pub struct XMatrixAuth {
    pub origin: String,
    pub destination: Option<String>,
    pub key: String,
    pub sig: String,
}

/// The mathematical value of an authorization header.
pub struct AuthView {
    pub origin: Seq<char>,
    pub destination: Option<Seq<char>>,
    pub key: Seq<char>,
    pub sig: Seq<char>,
}

impl XMatrixAuth {
    pub open spec fn view(&self) -> AuthView {
        AuthView {
            origin: self.origin@,
            destination: opt_string(self.destination),
            key: self.key@,
            sig: self.sig@,
        }
    }
}

/// The rest of a quoted value up to its closing quote, with a backslash taking
/// the character behind it as it is; and what follows the quote. `None` without
/// a closing quote.
pub open spec fn quoted(s: Seq<char>) -> Option<(Seq<char>, Seq<char>)>
    decreases s.len(),
{
    if s.len() == 0 {
        None
    } else if s[0] == '"' {
        Some((seq![], s.skip(1)))
    } else if s[0] == '\\' && s.len() == 1 {
        None
    } else {
        let (c, rest) = if s[0] == '\\' {
            (s[1], s.skip(2))
        } else {
            (s[0], s.skip(1))
        };
        match quoted(rest) {
            Some((value, after)) => Some((seq![c] + value, after)),
            None => None,
        }
    }
}

/// The value of a parameter and what follows it: a quoted value, or everything
/// up to the next comma without trailing white space.
pub open spec fn param_value(s: Seq<char>) -> Option<(Seq<char>, Seq<char>)> {
    if s.len() > 0 && s[0] == '"' {
        quoted(s.skip(1))
    } else {
        match s.index_of_first(',') {
            Some(q) => Some((trim_end_of(s.take(q)), s.skip(q))),
            None => Some((trim_end_of(s), seq![])),
        }
    }
}

/// What is left behind the comma that may follow a value.
pub open spec fn behind_comma(s: Seq<char>) -> Seq<char> {
    let t = trim_start_of(s);
    if t.len() > 0 && t[0] == ',' {
        trim_start_of(t.skip(1))
    } else {
        t
    }
}

/// The parameters that a text lists, in order; a `None` at the end for a text
/// that breaks off the syntax there.
pub open spec fn params(s: Seq<char>) -> Seq<Option<(Seq<char>, Seq<char>)>>
    decreases s.len(),
    via params_shrink
{
    if s.len() == 0 {
        seq![]
    } else {
        match s.index_of_first('=') {
            None => seq![None],
            Some(p) => match param_value(trim_start_of(s.skip(p + 1))) {
                None => seq![None],
                Some((value, after)) => seq![Some((trimmed(s.take(p)), value))] + params(
                    behind_comma(after),
                ),
            },
        }
    }
}

#[via_fn]
proof fn params_shrink(s: Seq<char>) {
    s.index_of_first_ensures('=');
    if let Some(p) = s.index_of_first('=') {
        let v = s.skip(p + 1);
        lemma_trim_start(v);
        let t = trim_start_of(v);
        lemma_value_shrinks(t);
        if let Some((value, after)) = param_value(t) {
            lemma_behind_comma(after);
        }
    }
}

proof fn lemma_trim_start(s: Seq<char>)
    ensures
        trim_start_of(s).len() <= s.len(),
    decreases s.len(),
{
    if s.len() > 0 && is_space(s[0]) {
        lemma_trim_start(s.drop_first());
    }
}

proof fn lemma_behind_comma(s: Seq<char>)
    ensures
        behind_comma(s).len() <= s.len(),
{
    lemma_trim_start(s);
    let t = trim_start_of(s);
    if t.len() > 0 {
        lemma_trim_start(t.skip(1));
    }
}

proof fn lemma_quoted_shrinks(s: Seq<char>)
    ensures
        quoted(s) matches Some((v, after)) ==> after.len() < s.len(),
    decreases s.len(),
{
    if s.len() > 0 && s[0] != '"' {
        if s[0] == '\\' {
            if s.len() > 1 {
                lemma_quoted_shrinks(s.skip(2));
            }
        } else {
            lemma_quoted_shrinks(s.skip(1));
        }
    }
}

proof fn lemma_value_shrinks(s: Seq<char>)
    ensures
        param_value(s) matches Some((v, after)) ==> after.len() <= s.len(),
{
    if s.len() > 0 && s[0] == '"' {
        lemma_quoted_shrinks(s.skip(1));
    } else {
        s.index_of_first_ensures(',');
    }
}

/// The value of the last parameter with one of two names, in any case.
pub open spec fn last_param(
    p: Seq<Option<(Seq<char>, Seq<char>)>>,
    name: Seq<char>,
    alias: Seq<char>,
) -> Option<Seq<char>>
    decreases p.len(),
{
    if p.len() == 0 {
        None
    } else {
        match p.last() {
            Some((n, v)) => if lowered(n) == name || lowered(n) == alias {
                Some(v)
            } else {
                last_param(p.drop_last(), name, alias)
            },
            None => None,
        }
    }
}

/// Whether a text begins with the name of the scheme, in any case, and a space.
pub open spec fn has_scheme(s: Seq<char>) -> bool {
    s.len() >= 9 && lowered(s.take(8)) == "x-matrix"@ && s[8] == ' '
}

/// What a list of parameters says: the syntax must hold to the end, and there
/// must be an origin, a key and a signature. Where a parameter is repeated the
/// last one counts.
pub open spec fn auth_of(p: Seq<Option<(Seq<char>, Seq<char>)>>) -> Option<AuthView> {
    let origin = last_param(p, "origin"@, "origin"@);
    let key = last_param(p, "key"@, "key"@);
    let sig = last_param(p, "sig"@, "signature"@);
    if p.len() > 0 && p.last() is None {
        None
    } else {
        match (origin, key, sig) {
            (Some(origin), Some(key), Some(sig)) => Some(
                AuthView {
                    origin,
                    destination: last_param(p, "destination"@, "destination"@),
                    key,
                    sig,
                },
            ),
            _ => None,
        }
    }
}

/// What an authorization header says.
pub open spec fn parsed_auth(header: Seq<char>) -> Option<AuthView> {
    let s = trimmed(header);
    if has_scheme(s) {
        auth_of(params(trim_start_of(s.skip(8))))
    } else {
        None
    }
}

pub open spec fn param_views(v: Seq<Option<(String, String)>>) -> Seq<
    Option<(Seq<char>, Seq<char>)>,
> {
    v.map_values(
        |p: Option<(String, String)>|
            match p {
                Some((n, x)) => Some((n@, x@)),
                None => None,
            },
    )
}

/// The part of some characters from `from` to `to`.
pub open spec fn span(s: Seq<char>, from: int, to: int) -> Seq<char> {
    s.subrange(from, to)
}

/// Moves `from` behind the white space in front of it.
fn skip_space(s: &Vec<char>, from: usize, to: usize) -> (r: usize)
    requires
        from <= to <= s.len(),
    ensures
        from <= r <= to,
        span(s@, r as int, to as int) == trim_start_of(span(s@, from as int, to as int)),
{
    let mut i: usize = from;
    while i < to && is_space_char(s[i])
        invariant
            from <= i <= to <= s.len(),
            trim_start_of(span(s@, from as int, to as int)) == trim_start_of(
                span(s@, i as int, to as int),
            ),
        decreases to - i,
    {
        proof {
            assert(span(s@, i as int, to as int).drop_first() =~= span(s@, i + 1, to as int));
        }
        i += 1;
    }
    i
}

/// Moves `to` before the white space in front of it.
fn drop_space(s: &Vec<char>, from: usize, to: usize) -> (r: usize)
    requires
        from <= to <= s.len(),
    ensures
        from <= r <= to,
        span(s@, from as int, r as int) == trim_end_of(span(s@, from as int, to as int)),
{
    let mut i: usize = to;
    while i > from && is_space_char(s[i - 1])
        invariant
            from <= i <= to <= s.len(),
            trim_end_of(span(s@, from as int, to as int)) == trim_end_of(
                span(s@, from as int, i as int),
            ),
        decreases i,
    {
        proof {
            assert(span(s@, from as int, i as int).drop_last() =~= span(s@, from as int, i - 1));
        }
        i -= 1;
    }
    i
}

/// The text of the characters from `from` to `to`.
fn text_span(s: &Vec<char>, from: usize, to: usize) -> (r: String)
    requires
        from <= to <= s.len(),
    ensures
        r@ == span(s@, from as int, to as int),
{
    let mut out = String::new();
    let mut i: usize = from;
    while i < to
        invariant
            from <= i <= to <= s.len(),
            out@ =~= span(s@, from as int, i as int),
        decreases to - i,
    {
        out.push(s[i]);
        i += 1;
    }
    out
}

proof fn lemma_quoted_step(s: Seq<char>, value: Seq<char>, rest: Seq<char>, c: char, next: Seq<char>)
    requires
        rest.len() > 0,
        rest[0] != '"',
        rest[0] == '\\' ==> rest.len() > 1 && c == rest[1] && next == rest.skip(2),
        rest[0] != '\\' ==> c == rest[0] && next == rest.skip(1),
        quoted(s) == (match quoted(rest) {
            Some((v, after)) => Some((value + v, after)),
            None => None,
        }),
    ensures
        quoted(s) == (match quoted(next) {
            Some((v, after)) => Some((value.push(c) + v, after)),
            None => None,
        }),
{
    if let Some((v, after)) = quoted(next) {
        assert(value + (seq![c] + v) =~= value.push(c) + v);
    }
}

/// Reads a quoted value from behind its opening quote.
fn read_quoted(s: &Vec<char>, from: usize, to: usize) -> (r: Option<(String, usize)>)
    requires
        from <= to <= s.len(),
    ensures
        match r {
            Some((v, i)) => from <= i <= to && quoted(span(s@, from as int, to as int)) == Some(
                (v@, span(s@, i as int, to as int)),
            ),
            None => quoted(span(s@, from as int, to as int)) is None,
        },
{
    let ghost whole = span(s@, from as int, to as int);
    let mut value = String::new();
    let mut i: usize = from;
    proof {
        if let Some((v, after)) = quoted(whole) {
            assert(value@ + v =~= v);
        }
    }
    while i < to
        invariant
            from <= i <= to <= s.len(),
            whole == span(s@, from as int, to as int),
            quoted(whole) == (match quoted(span(s@, i as int, to as int)) {
                Some((v, after)) => Some((value@ + v, after)),
                None => None,
            }),
        decreases to - i,
    {
        let ghost rest = span(s@, i as int, to as int);
        proof {
            assert(rest[0] == s@[i as int]);
            assert(rest.skip(1) =~= span(s@, i + 1, to as int));
        }
        let c = s[i];
        if c == '"' {
            proof {
                assert(value@ + Seq::<char>::empty() =~= value@);
            }
            return Some((value, i + 1));
        }
        if c == '\\' {
            if to - i < 2 {
                return None;
            }
            proof {
                assert(rest[1] == s@[i + 1]);
                assert(rest.skip(2) =~= span(s@, i + 2, to as int));
                lemma_quoted_step(whole, value@, rest, s@[i + 1], rest.skip(2));
            }
            value.push(s[i + 1]);
            i += 2;
        } else {
            proof {
                lemma_quoted_step(whole, value@, rest, c, rest.skip(1));
            }
            value.push(c);
            i += 1;
        }
    }
    None
}

fn find_in(s: &Vec<char>, c: char, from: usize, to: usize) -> (r: Option<usize>)
    requires
        from <= to <= s.len(),
    ensures
        match r {
            Some(i) => from <= i < to && span(s@, from as int, to as int).index_of_first(c) == Some(
                i - from,
            ),
            None => span(s@, from as int, to as int).index_of_first(c) is None,
        },
{
    let ghost t = span(s@, from as int, to as int);
    let mut i: usize = from;
    while i < to
        invariant
            from <= i <= to <= s.len(),
            t == span(s@, from as int, to as int),
            forall|j: int| 0 <= j < i - from ==> t[j] != c,
        decreases to - i,
    {
        proof {
            assert(t[i - from] == s@[i as int]);
        }
        if s[i] == c {
            proof {
                lemma_index_of_first(t, c, i - from);
            }
            return Some(i);
        }
        i += 1;
    }
    proof {
        lemma_no_index_of_first(t, c);
    }
    None
}

fn read_value(s: &Vec<char>, from: usize, to: usize) -> (r: Option<(String, usize)>)
    requires
        from <= to <= s.len(),
    ensures
        match r {
            Some((v, i)) => from <= i <= to && param_value(span(s@, from as int, to as int))
                == Some((v@, span(s@, i as int, to as int))),
            None => param_value(span(s@, from as int, to as int)) is None,
        },
{
    let ghost t = span(s@, from as int, to as int);
    if from < to && s[from] == '"' {
        proof {
            assert(t[0] == '"');
            assert(t.skip(1) =~= span(s@, from + 1, to as int));
        }
        return read_quoted(s, from + 1, to);
    }
    proof {
        if from < to {
            assert(t[0] == s@[from as int]);
        }
    }
    match find_in(s, ',', from, to) {
        Some(q) => {
            let end: usize = drop_space(s, from, q);
            proof {
                assert(t.take(q - from) =~= span(s@, from as int, q as int));
                assert(t.skip(q - from) =~= span(s@, q as int, to as int));
            }
            Some((text_span(s, from, end), q))
        },
        None => {
            let end: usize = drop_space(s, from, to);
            proof {
                assert(span(s@, to as int, to as int) =~= seq![]);
            }
            Some((text_span(s, from, end), to))
        },
    }
}

proof fn lemma_params_push(v: Seq<Option<(String, String)>>, x: Option<(String, String)>)
    ensures
        param_views(v.push(x)) == param_views(v).push(
            match x {
                Some((n, y)) => Some((n@, y@)),
                None => None,
            },
        ),
{
    assert(param_views(v.push(x)) =~= param_views(v).push(
        match x {
            Some((n, y)) => Some((n@, y@)),
            None => None,
        },
    ));
}

fn read_params(s: &Vec<char>, from: usize, to: usize) -> (r: Vec<Option<(String, String)>>)
    requires
        from <= to <= s.len(),
    ensures
        param_views(r@) == params(span(s@, from as int, to as int)),
{
    let ghost whole = span(s@, from as int, to as int);
    let mut out: Vec<Option<(String, String)>> = Vec::new();
    let mut i: usize = from;
    proof {
        assert(param_views(out@) + params(whole) =~= params(whole));
    }
    while i < to
        invariant
            from <= i <= to <= s.len(),
            whole == span(s@, from as int, to as int),
            param_views(out@) + params(span(s@, i as int, to as int)) == params(whole),
        decreases to - i,
    {
        let ghost rest = span(s@, i as int, to as int);
        let ghost before = param_views(out@);
        let p = match find_in(s, '=', i, to) {
            None => {
                proof {
                    lemma_params_push(out@, None);
                }
                out.push(None);
                proof {
                    assert(params(rest) =~= seq![None]);
                    assert(param_views(out@) =~= before + params(rest));
                }
                return out;
            },
            Some(p) => p,
        };
        let start: usize = skip_space(s, i, p);
        let end: usize = drop_space(s, start, p);
        let name = text_span(s, start, end);
        let at: usize = skip_space(s, p + 1, to);
        proof {
            assert(rest.take(p - i) =~= span(s@, i as int, p as int));
            assert(rest.skip(p - i + 1) =~= span(s@, p + 1, to as int));
        }
        match read_value(s, at, to) {
            None => {
                proof {
                    lemma_params_push(out@, None);
                }
                out.push(None);
                proof {
                    assert(params(rest) =~= seq![None]);
                    assert(param_views(out@) =~= before + params(rest));
                }
                return out;
            },
            Some((value, after)) => {
                let item = Some((name, value));
                proof {
                    lemma_params_push(out@, item);
                }
                out.push(item);
                let mut next: usize = skip_space(s, after, to);
                let ghost t = span(s@, next as int, to as int);
                if next < to && s[next] == ',' {
                    proof {
                        assert(t[0] == ',');
                        assert(t.skip(1) =~= span(s@, next + 1, to as int));
                    }
                    next = skip_space(s, next + 1, to);
                } else {
                    proof {
                        if next < to {
                            assert(t[0] == s@[next as int]);
                        }
                    }
                }
                proof {
                    let one = Some((name@, value@));
                    assert(params(rest) == seq![one] + params(span(s@, next as int, to as int)));
                    assert(before.push(one) + params(span(s@, next as int, to as int)) =~= before
                        + (seq![one] + params(span(s@, next as int, to as int))));
                }
                i = next;
            },
        }
    }
    proof {
        assert(span(s@, i as int, to as int) =~= seq![]);
        assert(param_views(out@) + seq![] =~= param_views(out@));
    }
    out
}

/// The parameters that a text lists.
pub fn split_auth_params(s: &str) -> (r: Vec<Option<(String, String)>>)
    ensures
        param_views(r@) == params(trimmed(s@)),
{
    let chars = chars_of(s);
    let n: usize = chars.len();
    proof {
        assert(span(chars@, 0, n as int) =~= s@);
    }
    let from: usize = skip_space(&chars, 0, n);
    let to: usize = drop_space(&chars, from, n);
    read_params(&chars, from, to)
}

fn is_named(name: &str, want: &str) -> (r: bool)
    requires
        lowered(want@) == want@,
    ensures
        r == (lowered(name@) == want@),
{
    let lower = crate::text::to_lower(name);
    str_eq(lower.as_str(), want)
}

proof fn lemma_lower_names()
    ensures
        lowered("origin"@) == "origin"@,
        lowered("destination"@) == "destination"@,
        lowered("key"@) == "key"@,
        lowered("sig"@) == "sig"@,
        lowered("signature"@) == "signature"@,
        lowered("x-matrix"@) == "x-matrix"@,
{
    reveal_strlit("origin");
    reveal_strlit("destination");
    reveal_strlit("key");
    reveal_strlit("sig");
    reveal_strlit("signature");
    reveal_strlit("x-matrix");
    assert(lowered("origin"@) =~= "origin"@);
    assert(lowered("destination"@) =~= "destination"@);
    assert(lowered("key"@) =~= "key"@);
    assert(lowered("sig"@) =~= "sig"@);
    assert(lowered("signature"@) =~= "signature"@);
    assert(lowered("x-matrix"@) =~= "x-matrix"@);
}

/// The value of the last parameter with one of two names.
fn find_param(p: &Vec<Option<(String, String)>>, name: &str, alias: &str) -> (r: Option<String>)
    requires
        lowered(name@) == name@,
        lowered(alias@) == alias@,
    ensures
        opt_string(r) == last_param(param_views(p@), name@, alias@),
{
    let ghost v = param_views(p@);
    let mut i: usize = p.len();
    proof {
        assert(v.take(i as int) =~= v);
    }
    while i > 0
        invariant
            i <= p.len(),
            v == param_views(p@),
            lowered(name@) == name@,
            lowered(alias@) == alias@,
            last_param(v, name@, alias@) == last_param(v.take(i as int), name@, alias@),
        decreases i,
    {
        proof {
            assert(v.take(i as int).last() == v[i - 1]);
            assert(v.take(i as int).drop_last() =~= v.take(i - 1));
        }
        match &p[i - 1] {
            Some((n, x)) => {
                if is_named(n.as_str(), name) || is_named(n.as_str(), alias) {
                    return Some(x.clone());
                }
            },
            None => {
                return None;
            },
        }
        i -= 1;
    }
    None
}

/// Reads an `X-Matrix` authorization header. Values may be quoted or not, names
/// are in any case and in any order, unknown parameters are passed over.
pub fn parse_x_matrix_auth(header: &str) -> (r: Option<XMatrixAuth>)
    ensures
        match r {
            Some(a) => parsed_auth(header@) == Some(a@),
            None => parsed_auth(header@) is None,
        },
{
    let chars = chars_of(header);
    let n: usize = chars.len();
    proof {
        assert(span(chars@, 0, n as int) =~= header@);
        lemma_lower_names();
    }
    let from: usize = skip_space(&chars, 0, n);
    let to: usize = drop_space(&chars, from, n);
    let ghost s = trimmed(header@);
    if to - from < 9 {
        return None;
    }
    let scheme = text_span(&chars, from, from + 8);
    proof {
        assert(s.take(8) =~= scheme@);
        assert(s.skip(8) =~= span(chars@, from + 8, to as int));
    }
    proof {
        assert(s[8] == chars@[from + 8]);
    }
    if !is_named(scheme.as_str(), "x-matrix") || chars[from + 8] != ' ' {
        return None;
    }
    let at: usize = skip_space(&chars, from + 8, to);
    let p = read_params(&chars, at, to);
    let ghost v = param_views(p@);
    proof {
        assert(v.len() == p@.len());
    }
    if p.len() > 0 {
        proof {
            assert(v.last() == v[p.len() - 1]);
        }
        if p[p.len() - 1].is_none() {
            return None;
        }
    }
    let origin = find_param(&p, "origin", "origin");
    let destination = find_param(&p, "destination", "destination");
    let key = find_param(&p, "key", "key");
    let sig = find_param(&p, "sig", "signature");
    match (origin, key, sig) {
        (Some(origin), Some(key), Some(sig)) => Some(
            XMatrixAuth { origin, destination, key, sig },
        ),
        _ => None,
    }
}

/// What is signed for a request: its method, its target, both servers, and its
/// body if it has one.
pub open spec fn request_json(
    method: Seq<char>,
    uri: Seq<char>,
    origin: Seq<char>,
    destination: Seq<char>,
    body: Option<JsonView>,
) -> Seq<(Seq<char>, JsonView)> {
    let base = seq![
        ("method"@, JsonView::Str(method)),
        ("uri"@, JsonView::Str(uri)),
        ("origin"@, JsonView::Str(origin)),
        ("destination"@, JsonView::Str(destination)),
    ];
    match body {
        Some(b) => base.push(("content"@, b)),
        None => base,
    }
}

fn request_members(
    method: &str,
    uri: &str,
    origin: &str,
    destination: &str,
    body: Option<&Json>,
) -> (r: Vec<(String, Json)>)
    ensures
        members(r@) == request_json(
            method@,
            uri@,
            origin@,
            destination@,
            match body {
                Some(b) => Some(b@),
                None => None,
            },
        ),
{
    let mut m: Vec<(String, Json)> = Vec::new();
    put(&mut m, "method", Json::text(method));
    put(&mut m, "uri", Json::text(uri));
    put(&mut m, "origin", Json::text(origin));
    put(&mut m, "destination", Json::text(destination));
    match body {
        Some(b) => {
            put(&mut m, "content", b.copy());
        },
        None => {},
    }
    proof {
        assert(members(m@) =~= request_json(
            method@,
            uri@,
            origin@,
            destination@,
            match body {
                Some(b) => Some(b@),
                None => None,
            },
        ));
    }
    m
}

/// The document that the sender of a request signs.
pub fn sign_federation_request(
    method: &str,
    uri: &str,
    origin: &str,
    destination: &str,
    body: Option<&Json>,
) -> (r: Json)
    ensures
        r@ == JsonView::Object(
            request_json(
                method@,
                uri@,
                origin@,
                destination@,
                match body {
                    Some(b) => Some(b@),
                    None => None,
                },
            ),
        ),
{
    Json::object(request_members(method, uri, origin, destination, body))
}

/// The signatures block that holds one signature of one server.
pub open spec fn signature_block(origin: Seq<char>, key_id: Seq<char>, sig: Seq<char>) -> JsonView {
    JsonView::Object(
        seq![(origin, JsonView::Object(seq![(key_id, JsonView::Str(sig))]))],
    )
}

/// The signed document that the receiver of a request verifies: what the sender
/// signed, with the signature of the header.
pub fn verify_federation_request(
    method: &str,
    uri: &str,
    origin: &str,
    destination: &str,
    body: Option<&Json>,
    key_id: &str,
    signature: &str,
) -> (r: Json)
    ensures
        r@ == JsonView::Object(
            request_json(
                method@,
                uri@,
                origin@,
                destination@,
                match body {
                    Some(b) => Some(b@),
                    None => None,
                },
            ).push(("signatures"@, signature_block(origin@, key_id@, signature@))),
        ),
{
    let mut m = request_members(method, uri, origin, destination, body);
    let mut by_key: Vec<(String, Json)> = Vec::new();
    put(&mut by_key, key_id, Json::text(signature));
    proof {
        assert(members(by_key@) =~= seq![(key_id@, JsonView::Str(signature@))]);
    }
    let mut by_server: Vec<(String, Json)> = Vec::new();
    put(&mut by_server, origin, Json::object(by_key));
    proof {
        assert(members(by_server@) =~= signature_block(origin@, key_id@, signature@)->Object_0);
    }
    put(&mut m, "signatures", Json::object(by_server));
    Json::object(m)
}

/// An authorization header with its four parameters.
pub open spec fn header_text(
    origin: Seq<char>,
    destination: Seq<char>,
    key: Seq<char>,
    sig: Seq<char>,
) -> Seq<char> {
    "X-Matrix origin=\""@ + origin + "\",destination=\""@ + destination + "\",key=\""@ + key
        + "\",sig=\""@ + sig + "\""@
}

/// Builds the authorization header of a request.
pub fn build_x_matrix_header(origin: &str, destination: &str, key_id: &str, sig: &str) -> (r:
    String)
    ensures
        r@ == header_text(origin@, destination@, key_id@, sig@),
{
    let mut out = "X-Matrix origin=\"".to_owned();
    out.append(origin);
    out.append("\",destination=\"");
    out.append(destination);
    out.append("\",key=\"");
    out.append(key_id);
    out.append("\",sig=\"");
    out.append(sig);
    out.append("\"");
    out
}

/// Whether a value needs no escaping between quotes.
pub open spec fn is_plain(v: Seq<char>) -> bool {
    forall|i: int| 0 <= i < v.len() ==> #[trigger] v[i] != '"' && v[i] != '\\'
}

/// A value as it stands between quotes: with a backslash before each quote and
/// each backslash.
pub open spec fn escaped(v: Seq<char>) -> Seq<char>
    decreases v.len(),
{
    if v.len() == 0 {
        seq![]
    } else if v[0] == '"' || v[0] == '\\' {
        seq!['\\', v[0]] + escaped(v.skip(1))
    } else {
        seq![v[0]] + escaped(v.skip(1))
    }
}

proof fn lemma_escaped_plain(v: Seq<char>)
    requires
        is_plain(v),
    ensures
        escaped(v) == v,
    decreases v.len(),
{
    if v.len() > 0 {
        assert forall|i: int| 0 <= i < v.skip(1).len() implies #[trigger] v.skip(1)[i] != '"'
            && v.skip(1)[i] != '\\' by {
            assert(v.skip(1)[i] == v[i + 1]);
        }
        lemma_escaped_plain(v.skip(1));
        assert(seq![v[0]] + v.skip(1) =~= v);
    } else {
        assert(v =~= seq![]);
    }
}

proof fn lemma_quoted_escaped(v: Seq<char>, rest: Seq<char>)
    ensures
        quoted(escaped(v) + seq!['"'] + rest) == Some((v, rest)),
    decreases v.len(),
{
    let s = escaped(v) + seq!['"'] + rest;
    if v.len() == 0 {
        assert(s[0] == '"');
        assert(s.skip(1) =~= rest);
        assert(v =~= seq![]);
    } else {
        let tail = escaped(v.skip(1)) + seq!['"'] + rest;
        lemma_quoted_escaped(v.skip(1), rest);
        assert(seq![v[0]] + v.skip(1) =~= v);
        if v[0] == '"' || v[0] == '\\' {
            assert(s[0] == '\\');
            assert(s[1] == v[0]);
            assert(s.skip(2) =~= tail);
        } else {
            assert(s[0] == v[0]);
            assert(s.skip(1) =~= tail);
        }
    }
}

/// Whether a text can name a parameter: it is not empty, has no white space
/// around it and no equals sign in it.
pub open spec fn is_param_name(name: Seq<char>) -> bool {
    &&& name.len() > 0
    &&& !is_space(name[0])
    &&& !is_space(name.last())
    &&& forall|i: int| 0 <= i < name.len() ==> name[i] != '='
}

/// A parameter as it is written: its name, and its value between quotes.
pub open spec fn written_param(p: (Seq<char>, Seq<char>)) -> Seq<char> {
    p.0 + seq!['=', '"'] + escaped(p.1) + seq!['"']
}

/// Parameters as they are written: separated by commas.
pub open spec fn written_params(p: Seq<(Seq<char>, Seq<char>)>) -> Seq<char>
    decreases p.len(),
{
    if p.len() == 0 {
        seq![]
    } else if p.len() == 1 {
        written_param(p[0])
    } else {
        written_param(p[0]) + (seq![','] + written_params(p.skip(1)))
    }
}

/// Parameters as a text lists them that has no fault.
pub open spec fn faultless(p: Seq<(Seq<char>, Seq<char>)>) -> Seq<
    Option<(Seq<char>, Seq<char>)>,
> {
    p.map_values(|x: (Seq<char>, Seq<char>)| Some(x))
}

/// One parameter at the front of a list.
proof fn lemma_param(name: Seq<char>, v: Seq<char>, tail: Seq<char>)
    requires
        is_param_name(name),
    ensures
        params(written_param((name, v)) + tail) == seq![Some((name, v))] + params(
            behind_comma(tail),
        ),
{
    let s = written_param((name, v)) + tail;
    let p = name.len() as int;
    assert(s[p] == '=');
    assert forall|j: int| 0 <= j < p implies s[j] != '=' by {
        assert(s[j] == name[j]);
    }
    lemma_index_of_first(s, '=', p);
    assert(s.take(p) =~= name);
    lemma_trimmed(name);
    let t = s.skip(p + 1);
    assert(t =~= seq!['"'] + (escaped(v) + seq!['"'] + tail));
    assert(t[0] == '"');
    assert(!is_space('"'));
    assert(trim_start_of(t) == t);
    assert(t.skip(1) =~= escaped(v) + seq!['"'] + tail);
    lemma_quoted_escaped(v, tail);
}

/// Parameters read back as they were written, whatever their values hold.
pub proof fn law_params_round_trip(p: Seq<(Seq<char>, Seq<char>)>)
    requires
        forall|i: int| 0 <= i < p.len() ==> is_param_name((#[trigger] p[i]).0),
    ensures
        params(written_params(p)) == faultless(p),
    decreases p.len(),
{
    if p.len() == 0 {
        assert(faultless(p) =~= seq![]);
    } else if p.len() == 1 {
        lemma_param(p[0].0, p[0].1, seq![]);
        assert(written_param(p[0]) + seq![] =~= written_param(p[0]));
        assert(behind_comma(seq![]) =~= seq![]);
        assert(faultless(p) =~= seq![Some(p[0])] + params(seq![]));
    } else {
        let rest = p.skip(1);
        assert forall|i: int| 0 <= i < rest.len() implies is_param_name((#[trigger] rest[i]).0) by {
            assert(rest[i] == p[i + 1]);
        }
        law_params_round_trip(rest);
        assert(rest[0] == p[1]);
        assert(is_param_name(p[1].0));
        assert(written_params(rest)[0] == p[1].0[0]);
        lemma_comma(written_params(rest));
        lemma_param(p[0].0, p[0].1, seq![','] + written_params(rest));
        assert(faultless(p) =~= seq![Some(p[0])] + faultless(rest));
    }
}

/// Whether some parameters give a name, in any case, or its alias one value and
/// no other; or, for `None`, do not give it.
pub open spec fn says(
    p: Seq<(Seq<char>, Seq<char>)>,
    name: Seq<char>,
    alias: Seq<char>,
    v: Option<Seq<char>>,
) -> bool {
    &&& forall|i: int|
        0 <= i < p.len() && (lowered((#[trigger] p[i]).0) == name || lowered(p[i].0) == alias)
            ==> Some(p[i].1) == v
    &&& v is Some ==> exists|i: int|
        0 <= i < p.len() && (lowered((#[trigger] p[i]).0) == name || lowered(p[i].0) == alias)
}

proof fn lemma_says(
    p: Seq<(Seq<char>, Seq<char>)>,
    name: Seq<char>,
    alias: Seq<char>,
    v: Option<Seq<char>>,
)
    requires
        says(p, name, alias, v),
    ensures
        last_param(faultless(p), name, alias) == v,
    decreases p.len(),
{
    if p.len() > 0 {
        let front = p.drop_last();
        let last = p.last();
        assert(faultless(p).last() == Some(last));
        assert(faultless(p).drop_last() =~= faultless(front));
        assert(last == p[p.len() - 1]);
        if lowered(last.0) != name && lowered(last.0) != alias {
            assert forall|i: int|
                0 <= i < front.len() && (lowered((#[trigger] front[i]).0) == name || lowered(
                    front[i].0,
                ) == alias) implies Some(front[i].1) == v by {
                assert(front[i] == p[i]);
            }
            if v is Some {
                let i = choose|i: int|
                    0 <= i < p.len() && (lowered((#[trigger] p[i]).0) == name || lowered(p[i].0)
                        == alias);
                assert(front[i] == p[i]);
            }
            lemma_says(front, name, alias, v);
        }
    }
}

/// A header is read for what its parameters say, in whatever order they stand,
/// in whatever case their names are written, and whatever their values hold;
/// other parameters beside them do not matter.
pub proof fn law_header_in_any_order(
    p: Seq<(Seq<char>, Seq<char>)>,
    origin: Seq<char>,
    destination: Option<Seq<char>>,
    key: Seq<char>,
    sig: Seq<char>,
)
    requires
        forall|i: int| 0 <= i < p.len() ==> is_param_name((#[trigger] p[i]).0),
        says(p, "origin"@, "origin"@, Some(origin)),
        says(p, "destination"@, "destination"@, destination),
        says(p, "key"@, "key"@, Some(key)),
        says(p, "sig"@, "signature"@, Some(sig)),
    ensures
        parsed_auth("X-Matrix "@ + written_params(p)) == Some(
            AuthView { origin, destination, key, sig },
        ),
{
    reveal_strlit("X-Matrix ");
    reveal_strlit("x-matrix");
    let w = written_params(p);
    let h = "X-Matrix "@ + w;
    lemma_written_ends(p);
    assert(h[0] == 'X');
    assert(h.last() == w.last());
    lemma_trimmed(h);
    assert(lowered(h.take(8)) =~= "x-matrix"@);
    assert(h[8] == ' ');
    let body = h.skip(8);
    assert(body[0] == ' ');
    assert(body.drop_first() =~= w);
    assert(trim_start_of(w) == w);
    assert(trim_start_of(body) == w);
    law_params_round_trip(p);
    lemma_says(p, "origin"@, "origin"@, Some(origin));
    lemma_says(p, "destination"@, "destination"@, destination);
    lemma_says(p, "key"@, "key"@, Some(key));
    lemma_says(p, "sig"@, "signature"@, Some(sig));
    assert(faultless(p).last() == Some(p[p.len() - 1]));
}

proof fn lemma_written_ends(p: Seq<(Seq<char>, Seq<char>)>)
    requires
        p.len() > 0,
        forall|i: int| 0 <= i < p.len() ==> is_param_name((#[trigger] p[i]).0),
    ensures
        written_params(p).len() > 0,
        !is_space(written_params(p)[0]),
        written_params(p).last() == '"',
    decreases p.len(),
{
    assert(is_param_name(p[0].0));
    assert(written_params(p)[0] == p[0].0[0]);
    if p.len() > 1 {
        let rest = p.skip(1);
        assert forall|i: int| 0 <= i < rest.len() implies is_param_name((#[trigger] rest[i]).0) by {
            assert(rest[i] == p[i + 1]);
        }
        lemma_written_ends(rest);
    }
}

/// A comma and a name: what is left behind the comma is the name and what
/// follows.
proof fn lemma_comma(rest: Seq<char>)
    requires
        rest.len() > 0,
        !is_space(rest[0]),
    ensures
        behind_comma(seq![','] + rest) == rest,
{
    let s = seq![','] + rest;
    assert(s[0] == ',');
    assert(!is_space(','));
    assert(s.skip(1) =~= rest);
}

proof fn lemma_trimmed(s: Seq<char>)
    requires
        s.len() > 0,
        !is_space(s[0]),
        !is_space(s.last()),
    ensures
        trimmed(s) == s,
{
}

/// A header reads back as what it was built from, as long as no value holds a
/// quote or a backslash: a header is built of the values as they are.
pub proof fn law_header_round_trip(
    origin: Seq<char>,
    destination: Seq<char>,
    key: Seq<char>,
    sig: Seq<char>,
)
    requires
        is_plain(origin),
        is_plain(destination),
        is_plain(key),
        is_plain(sig),
    ensures
        parsed_auth(header_text(origin, destination, key, sig)) == Some(
            AuthView { origin, destination: Some(destination), key, sig },
        ),
{
    let p = header_params(origin, destination, key, sig);
    lemma_escaped_plain(origin);
    lemma_escaped_plain(destination);
    lemma_escaped_plain(key);
    lemma_escaped_plain(sig);
    lemma_header_text(origin, destination, key, sig);
    lemma_header_names();
    lemma_lower_names();
    assert(p[0].0 == "origin"@ && p[1].0 == "destination"@ && p[2].0 == "key"@ && p[3].0
        == "sig"@);
    law_header_in_any_order(p, origin, Some(destination), key, sig);
}

/// The parameters of a header that is built.
spec fn header_params(
    origin: Seq<char>,
    destination: Seq<char>,
    key: Seq<char>,
    sig: Seq<char>,
) -> Seq<(Seq<char>, Seq<char>)> {
    seq![("origin"@, origin), ("destination"@, destination), ("key"@, key), ("sig"@, sig)]
}

proof fn lemma_header_names()
    ensures
        is_param_name("origin"@),
        is_param_name("destination"@),
        is_param_name("key"@),
        is_param_name("sig"@),
        "origin"@ != "destination"@,
        "origin"@ != "key"@,
        "origin"@ != "sig"@,
        "origin"@ != "signature"@,
        "destination"@ != "key"@,
        "destination"@ != "sig"@,
        "destination"@ != "signature"@,
        "key"@ != "sig"@,
        "key"@ != "signature"@,
{
    reveal_strlit("origin");
    reveal_strlit("destination");
    reveal_strlit("key");
    reveal_strlit("sig");
    reveal_strlit("signature");
    assert("origin"@.len() == 6 && "destination"@.len() == 11 && "key"@.len() == 3 && "sig"@.len()
        == 3 && "signature"@.len() == 9);
    assert("key"@[0] == 'k' && "sig"@[0] == 's');
}

proof fn lemma_header_text(
    origin: Seq<char>,
    destination: Seq<char>,
    key: Seq<char>,
    sig: Seq<char>,
)
    requires
        escaped(origin) == origin,
        escaped(destination) == destination,
        escaped(key) == key,
        escaped(sig) == sig,
    ensures
        header_text(origin, destination, key, sig) == "X-Matrix "@ + written_params(
            header_params(origin, destination, key, sig),
        ),
{
    reveal_strlit("X-Matrix origin=\"");
    reveal_strlit("X-Matrix ");
    reveal_strlit("\",destination=\"");
    reveal_strlit("\",key=\"");
    reveal_strlit("\",sig=\"");
    reveal_strlit("\"");
    reveal_strlit("origin");
    reveal_strlit("destination");
    reveal_strlit("key");
    reveal_strlit("sig");
    let p = header_params(origin, destination, key, sig);
    let p2 = seq![("destination"@, destination), ("key"@, key), ("sig"@, sig)];
    let p3 = seq![("key"@, key), ("sig"@, sig)];
    let p4 = seq![("sig"@, sig)];
    assert(p.skip(1) =~= p2);
    assert(p2.skip(1) =~= p3);
    assert(p3.skip(1) =~= p4);
    assert("X-Matrix origin=\""@ =~= "X-Matrix "@ + "origin"@ + seq!['=', '"']);
    assert("\",destination=\""@ =~= seq!['"', ','] + "destination"@ + seq!['=', '"']);
    assert("\",key=\""@ =~= seq!['"', ','] + "key"@ + seq!['=', '"']);
    assert("\",sig=\""@ =~= seq!['"', ','] + "sig"@ + seq!['=', '"']);
    assert("\""@ =~= seq!['"']);
    let w4 = written_params(p4);
    assert(w4 == "sig"@ + seq!['=', '"'] + sig + seq!['"']);
    let w3 = written_params(p3);
    assert(w3 == "key"@ + seq!['=', '"'] + key + seq!['"'] + (seq![','] + w4));
    let w2 = written_params(p2);
    assert(w2 == "destination"@ + seq!['=', '"'] + destination + seq!['"'] + (seq![','] + w3));
    let h3 = "key"@ + seq!['=', '"'] + key + "\",sig=\""@ + sig + "\""@;
    assert(h3 =~= w3);
    let h2 = "destination"@ + seq!['=', '"'] + destination + "\",key=\""@ + key + "\",sig=\""@
        + sig + "\""@;
    assert(h2 =~= "destination"@ + seq!['=', '"'] + destination + seq!['"', ','] + h3);
    assert(h2 =~= w2);
    assert(header_text(origin, destination, key, sig) =~= "X-Matrix "@ + ("origin"@ + seq![
        '=',
        '"',
    ] + origin + seq!['"', ','] + h2));
    assert(written_params(p) == "origin"@ + seq!['=', '"'] + origin + seq!['"'] + (seq![','] + w2));
    assert(seq!['"'] + (seq![','] + w2) =~= seq!['"', ','] + h2);
    assert("origin"@ + seq!['=', '"'] + origin + seq!['"', ','] + h2 =~= written_params(p));
}

/// What the receiver of a request verifies is what the sender signed, with the
/// signature added to it.
pub proof fn law_same_request(
    method: Seq<char>,
    uri: Seq<char>,
    origin: Seq<char>,
    destination: Seq<char>,
    body: Option<JsonView>,
    key_id: Seq<char>,
    sig: Seq<char>,
)
    ensures
        ({
            let signed = request_json(method, uri, origin, destination, body);
            let verified = signed.push(("signatures"@, signature_block(origin, key_id, sig)));
            &&& verified.drop_last() == signed
            &&& member(signed, "signatures"@) is None
            &&& member(verified, "signatures"@) == Some(signature_block(origin, key_id, sig))
            &&& forall|k: Seq<char>| k != "signatures"@ ==> #[trigger] member(verified, k)
                == member(signed, k)
        }),
{
    reveal_with_fuel(member, 7);
    reveal_strlit("method");
    reveal_strlit("uri");
    reveal_strlit("origin");
    reveal_strlit("destination");
    reveal_strlit("content");
    reveal_strlit("signatures");
    let signed = request_json(method, uri, origin, destination, body);
    let block = signature_block(origin, key_id, sig);
    let verified = signed.push(("signatures"@, block));
    assert(verified.drop_last() =~= signed);
    assert("signatures"@.len() == 10);
    assert("method"@.len() == 6 && "uri"@.len() == 3 && "origin"@.len() == 6);
    assert("destination"@.len() == 11 && "content"@.len() == 7);
    lemma_pushed_member(signed, "signatures"@, block);
    let m1 = signed.drop_first();
    let m2 = m1.drop_first();
    let m3 = m2.drop_first();
    let m4 = m3.drop_first();
    assert(m1[0] == signed[1] && m2[0] == signed[2] && m3[0] == signed[3]);
    match body {
        Some(b) => {
            assert(m4[0] == signed[4]);
            assert(m4.drop_first() =~= seq![]);
        },
        None => {
            assert(m4 =~= seq![]);
        },
    }
}

/// A member at the end counts where no other has its key, and hides no other.
proof fn lemma_pushed_member(m: Seq<(Seq<char>, JsonView)>, key: Seq<char>, value: JsonView)
    ensures
        member(m, key) is None ==> member(m.push((key, value)), key) == Some(value),
        forall|k: Seq<char>| k != key ==> #[trigger] member(m.push((key, value)), k) == member(m, k),
    decreases m.len(),
{
    let t = m.push((key, value));
    if m.len() == 0 {
        assert(t[0] == (key, value));
        assert(t.drop_first() =~= seq![]);
        assert forall|k: Seq<char>| k != key implies #[trigger] member(t, k) == member(m, k) by {
            assert(member(t.drop_first(), k) is None);
        }
    } else {
        let rest = m.drop_first();
        assert(t[0] == m[0]);
        assert(t.drop_first() =~= rest.push((key, value)));
        lemma_pushed_member(rest, key, value);
        assert forall|k: Seq<char>| k != key implies #[trigger] member(t, k) == member(m, k) by {
            assert(member(rest.push((key, value)), k) == member(rest, k));
        }
    }
}

/// What is signed for a request is all of it: its method, its target, both servers,
/// and its body exactly if it has one.
pub proof fn law_signed_request(
    method: Seq<char>,
    uri: Seq<char>,
    origin: Seq<char>,
    destination: Seq<char>,
    body: Option<JsonView>,
)
    ensures
        ({
            let r = JsonView::Object(request_json(method, uri, origin, destination, body));
            &&& r.get("method"@) == Some(JsonView::Str(method))
            &&& r.get("uri"@) == Some(JsonView::Str(uri))
            &&& r.get("origin"@) == Some(JsonView::Str(origin))
            &&& r.get("destination"@) == Some(JsonView::Str(destination))
            &&& r.get("content"@) == body
        }),
{
    reveal_with_fuel(member, 6);
    reveal_strlit("method");
    reveal_strlit("uri");
    reveal_strlit("origin");
    reveal_strlit("destination");
    reveal_strlit("content");
    assert("method"@.len() == 6 && "uri"@.len() == 3 && "origin"@.len() == 6);
    assert("destination"@.len() == 11 && "content"@.len() == 7);
    assert("method"@[0] == 'm' && "origin"@[0] == 'o');
    let m = request_json(method, uri, origin, destination, body);
    let m1 = m.drop_first();
    let m2 = m1.drop_first();
    let m3 = m2.drop_first();
    let m4 = m3.drop_first();
    assert(m1[0] == m[1] && m2[0] == m[2] && m3[0] == m[3]);
    if body is Some {
        assert(m4[0] == m[4]);
    } else {
        assert(m4 =~= seq![]);
    }
}

/// The signature of a request stands under its server and its key.
pub proof fn law_signature_block(origin: Seq<char>, key_id: Seq<char>, sig: Seq<char>)
    ensures
        signature_block(origin, key_id, sig).get(origin) matches Some(by) && by.get(key_id) == Some(
            JsonView::Str(sig),
        ),
{
    reveal_with_fuel(member, 2);
    let m = signature_block(origin, key_id, sig)->Object_0;
    assert(m[0].0 == origin);
    assert(m[0].1->Object_0[0] == (key_id, JsonView::Str(sig)));
}

/// Of a parameter that is repeated the last one counts, under either of its names
/// and in any case; it is missing only if it stands nowhere.
pub proof fn law_last_param(
    p: Seq<Option<(Seq<char>, Seq<char>)>>,
    name: Seq<char>,
    alias: Seq<char>,
)
    requires
        forall|i: int| 0 <= i < p.len() ==> (#[trigger] p[i]) is Some,
    ensures
        match last_param(p, name, alias) {
            Some(v) => exists|i: int|
                0 <= i < p.len() && ((#[trigger] p[i]) matches Some((n, x)) && x == v && (lowered(n)
                    == name || lowered(n) == alias)) && forall|j: int|
                    i < j < p.len() ==> !((#[trigger] p[j]) matches Some((n, _)) && (lowered(n)
                        == name || lowered(n) == alias)),
            None => forall|j: int|
                0 <= j < p.len() ==> !((#[trigger] p[j]) matches Some((n, _)) && (lowered(n) == name
                    || lowered(n) == alias)),
        },
    decreases p.len(),
{
    if p.len() > 0 {
        let front = p.drop_last();
        let last = p.len() - 1;
        assert(p[last] is Some);
        assert forall|i: int| 0 <= i < front.len() implies (#[trigger] front[i]) is Some by {
            assert(front[i] == p[i]);
        }
        law_last_param(front, name, alias);
        let (n, v) = p[last]->0;
        if lowered(n) == name || lowered(n) == alias {
            assert(p[last] == Some((n, v)));
        } else {
            match last_param(front, name, alias) {
                Some(v) => {
                    let i = choose|i: int|
                        0 <= i < front.len() && ((#[trigger] front[i]) matches Some((n, x)) && x == v
                            && (lowered(n) == name || lowered(n) == alias)) && forall|j: int|
                            i < j < front.len() ==> !((#[trigger] front[j]) matches Some((n, _)) && (
                            lowered(n) == name || lowered(n) == alias));
                    assert(p[i] == front[i]);
                    assert forall|j: int| i < j < p.len() implies !((#[trigger] p[j]) matches Some(
                        (n, _),
                    ) && (lowered(n) == name || lowered(n) == alias)) by {
                        if j < front.len() {
                            assert(front[j] == p[j]);
                        }
                    }
                },
                None => {
                    assert forall|j: int| 0 <= j < p.len() implies !((#[trigger] p[j]) matches Some(
                        (n, _),
                    ) && (lowered(n) == name || lowered(n) == alias)) by {
                        if j < front.len() {
                            assert(front[j] == p[j]);
                        }
                    }
                },
            }
        }
    }
}

/// A header speaks for a server exactly if its syntax holds to the end and it states
/// an origin, a key and a signature; a destination may be missing.
pub proof fn law_what_a_header_needs(p: Seq<Option<(Seq<char>, Seq<char>)>>)
    ensures
        auth_of(p) is Some <==> !(p.len() > 0 && p.last() is None) && last_param(
            p,
            "origin"@,
            "origin"@,
        ) is Some && last_param(p, "key"@, "key"@) is Some && last_param(
            p,
            "sig"@,
            "signature"@,
        ) is Some,
        auth_of(p) matches Some(a) ==> Some(a.origin) == last_param(p, "origin"@, "origin"@) && Some(
            a.key,
        ) == last_param(p, "key"@, "key"@) && Some(a.sig) == last_param(p, "sig"@, "signature"@)
            && a.destination == last_param(p, "destination"@, "destination"@),
{
}

/// A value without quotes goes up to the next comma, without the white space at its
/// end.
pub proof fn law_bare_values(v: Seq<char>, rest: Seq<char>)
    requires
        v.len() > 0,
        v[0] != '"',
        !v.contains(','),
    ensures
        param_value(v) == Some((trim_end_of(v), Seq::<char>::empty())),
        param_value(v + seq![','] + rest) == Some((trim_end_of(v), seq![','] + rest)),
{
    let s = v + seq![','] + rest;
    s.index_of_first_ensures(',');
    v.index_of_first_ensures(',');
    assert(s[v.len() as int] == ',');
    let q = s.index_of_first(',')->0;
    if q < v.len() {
        assert(v[q] == ',');
    }
    assert(s.take(q) =~= v);
    assert(s.skip(q) =~= seq![','] + rest);
    assert(s[0] == v[0]);
}

} // verus!
