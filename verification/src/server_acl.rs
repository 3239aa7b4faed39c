//! Evaluation of a room's `m.room.server_acl`: which servers may act in it.

use vstd::prelude::*;
use vstd::string::*;

use crate::api::api_error;
use crate::api::err_response;
use crate::api::ApiError;
use crate::api::ApiErrorView;
use crate::api::FORBIDDEN;
use crate::ip::address_of;
use crate::ip::parse_ip;
use crate::json::collect_strings;
use crate::json::opt_json;
use crate::json::strings_in;
use crate::json::Json;
use crate::json::JsonView;
use crate::text::law_pieces;
use crate::text::law_pieces_apart;
use crate::json::law_strings;
use crate::text::cat;
use crate::text::cat3;
use crate::text::cat4;
use crate::text::chars_of;
use crate::text::opt_string;
use crate::text::pieces;
use crate::text::split;
use crate::text::texts;

verus! {

/// Whether a glob pattern matches a text: `*` stands for any run of
/// characters, `?` for any single one, every other character for itself.
pub open spec fn glob(p: Seq<char>, s: Seq<char>) -> bool
    decreases p.len(), s.len(),
{
    if p.len() == 0 {
        s.len() == 0
    } else if p[0] == '*' {
        glob(p.skip(1), s) || (s.len() > 0 && glob(p, s.skip(1)))
    } else {
        s.len() > 0 && (p[0] == '?' || p[0] == s[0]) && glob(p.skip(1), s.skip(1))
    }
}

/// A leading star may swallow more: if it matches a later part of the text, it
/// matches from every earlier place.
proof fn lemma_star_absorbs(p: Seq<char>, s: Seq<char>, k: int)
    requires
        p.len() > 0,
        p[0] == '*',
        0 <= k <= s.len(),
        glob(p, s.skip(k)),
    ensures
        glob(p, s),
    decreases k,
{
    if k == 0 {
        assert(s.skip(0) =~= s);
    } else {
        assert(s.skip(k) =~= s.skip(1).skip(k - 1));
        lemma_star_absorbs(p, s.skip(1), k - 1);
    }
}

/// A star that matches leaves its rest to match at some later place.
proof fn lemma_star_rest(p: Seq<char>, s: Seq<char>) -> (k: int)
    requires
        p.len() > 0,
        p[0] == '*',
        glob(p, s),
    ensures
        0 <= k <= s.len(),
        glob(p.skip(1), s.skip(k)),
    decreases s.len(),
{
    if glob(p.skip(1), s) {
        assert(s.skip(0) =~= s);
        0
    } else {
        let k = lemma_star_rest(p, s.skip(1));
        assert(s.skip(1).skip(k) =~= s.skip(k + 1));
        k + 1
    }
}

/// Whether `n` characters of `s` match the first `n` of `p` one by one, with
/// no star among them.
spec fn block_matches(p: Seq<char>, s: Seq<char>, n: int) -> bool {
    &&& 0 <= n <= p.len()
    &&& n <= s.len()
    &&& forall|k: int| 0 <= k < n ==> #[trigger] p[k] != '*' && (p[k] == '?' || p[k] == s[k])
}

proof fn lemma_block(p: Seq<char>, s: Seq<char>, n: int)
    requires
        block_matches(p, s, n),
    ensures
        glob(p, s) == glob(p.skip(n), s.skip(n)),
    decreases n,
{
    if n == 0 {
        assert(p.skip(0) =~= p);
        assert(s.skip(0) =~= s);
    } else {
        assert(p[0] != '*');
        assert forall|k: int| 0 <= k < n - 1 implies #[trigger] p.skip(1)[k] != '*' && (p.skip(1)[k]
            == '?' || p.skip(1)[k] == s.skip(1)[k]) by {
            assert(p.skip(1)[k] == p[k + 1]);
        }
        lemma_block(p.skip(1), s.skip(1), n - 1);
        assert(p.skip(1).skip(n - 1) =~= p.skip(n));
        assert(s.skip(1).skip(n - 1) =~= s.skip(n));
    }
}

/// A pattern that starts with `n` characters and no star needs them matched.
proof fn lemma_block_needed(p: Seq<char>, s: Seq<char>, n: int)
    requires
        0 <= n <= p.len(),
        forall|k: int| 0 <= k < n ==> #[trigger] p[k] != '*',
        glob(p, s),
    ensures
        n <= s.len(),
        glob(p.skip(n), s.skip(n)),
    decreases n,
{
    if n == 0 {
        assert(p.skip(0) =~= p);
        assert(s.skip(0) =~= s);
    } else {
        assert(p[0] != '*');
        assert forall|k: int| 0 <= k < n - 1 implies #[trigger] p.skip(1)[k] != '*' by {
            assert(p.skip(1)[k] == p[k + 1]);
        }
        lemma_block_needed(p.skip(1), s.skip(1), n - 1);
        assert(p.skip(1).skip(n - 1) =~= p.skip(n));
        assert(s.skip(1).skip(n - 1) =~= s.skip(n));
    }
}

/// Only stars match the empty text.
proof fn lemma_stars(p: Seq<char>, n: int)
    requires
        0 <= n <= p.len(),
        forall|k: int| 0 <= k < n ==> p[k] == '*',
        n < p.len() ==> p[n] != '*',
    ensures
        glob(p, seq![]) == (n == p.len()),
    decreases n,
{
    if n > 0 {
        assert forall|k: int| 0 <= k < n - 1 implies p.skip(1)[k] == '*' by {
            assert(p.skip(1)[k] == p[k + 1]);
        }
        lemma_stars(p.skip(1), n - 1);
    }
}

/// What holds while a pattern is matched from the left: the answer is that of
/// the rest of both, or, once a star was met at `star`, that of the pattern
/// from the star on and the text from `mark` on, of which the characters up to
/// `j` match those of the pattern between the star and `i`.
#[verifier::opaque]
spec fn matching(
    p: Seq<char>,
    t: Seq<char>,
    i: int,
    j: int,
    star: Option<usize>,
    mark: int,
) -> bool {
    &&& 0 <= i <= p.len()
    &&& 0 <= mark <= j <= t.len()
    &&& match star {
        None => mark == 0 && glob(p, t) == glob(p.skip(i), t.skip(j)),
        Some(si) => {
            &&& 0 <= si < i
            &&& p[si as int] == '*'
            &&& i - si - 1 == j - mark
            &&& glob(p, t) == glob(p.skip(si as int), t.skip(mark))
            &&& block_matches(p.skip(si + 1), t.skip(mark), i - si - 1)
        },
    }
}

proof fn lemma_start(p: Seq<char>, t: Seq<char>)
    ensures
        matching(p, t, 0, 0, None, 0),
{
    reveal(matching);
    assert(p.skip(0) =~= p);
    assert(t.skip(0) =~= t);
}

proof fn lemma_at_star(p: Seq<char>, t: Seq<char>, i: int, j: int, star: Option<usize>, mark: int)
    requires
        matching(p, t, i, j, star, mark),
        i < p.len() <= usize::MAX,
        p[i] == '*',
    ensures
        matching(p, t, i + 1, j, Some(i as usize), j),
{
    reveal(matching);
    let pi = p.skip(i);
    let tj = t.skip(j);
    if let Some(si) = star {
        let ps = p.skip(si as int);
        let tm = t.skip(mark);
        let b = p.skip(si + 1);
        assert(ps.skip(1) =~= b);
        lemma_block(b, tm, i - si - 1);
        assert(b.skip(i - si - 1) =~= pi);
        assert(tm.skip(j - mark) =~= tj);
        if glob(ps, tm) {
            let k = lemma_star_rest(ps, tm);
            assert forall|q: int| 0 <= q < i - si - 1 implies #[trigger] b[q] != '*' by {}
            lemma_block_needed(b, tm.skip(k), i - si - 1);
            assert(tm.skip(k).skip(i - si - 1) =~= tj.skip(k));
            lemma_star_absorbs(pi, tj, k);
        }
        if glob(pi, tj) {
            assert(glob(ps, tm));
        }
    }
    assert(block_matches(p.skip(i + 1), tj, 0));
}

proof fn lemma_at_match(p: Seq<char>, t: Seq<char>, i: int, j: int, star: Option<usize>, mark: int)
    requires
        matching(p, t, i, j, star, mark),
        i < p.len(),
        j < t.len(),
        p[i] != '*',
        p[i] == '?' || p[i] == t[j],
    ensures
        matching(p, t, i + 1, j + 1, star, mark),
{
    reveal(matching);
    assert(p.skip(i).skip(1) =~= p.skip(i + 1));
    assert(t.skip(j).skip(1) =~= t.skip(j + 1));
    if let Some(si) = star {
        let b = p.skip(si + 1);
        let tm = t.skip(mark);
        assert(b[i - si - 1] == p[i]);
        assert(tm[j - mark] == t[j]);
        assert(block_matches(b, tm, i - si));
    }
}

proof fn lemma_at_mismatch(
    p: Seq<char>,
    t: Seq<char>,
    i: int,
    j: int,
    star: Option<usize>,
    mark: int,
)
    requires
        matching(p, t, i, j, star, mark),
        j < t.len(),
        i < p.len() ==> p[i] != '*' && p[i] != '?' && p[i] != t[j],
    ensures
        star is None ==> !glob(p, t),
        star matches Some(si) ==> matching(p, t, si + 1, mark + 1, star, mark + 1),
{
    reveal(matching);
    assert(!glob(p.skip(i), t.skip(j)));
    if let Some(si) = star {
        let ps = p.skip(si as int);
        let tm = t.skip(mark);
        let b = p.skip(si + 1);
        assert(ps.skip(1) =~= b);
        lemma_block(b, tm, i - si - 1);
        assert(b.skip(i - si - 1) =~= p.skip(i));
        assert(tm.skip(j - mark) =~= t.skip(j));
        assert(tm.skip(1) =~= t.skip(mark + 1));
        assert(block_matches(b, t.skip(mark + 1), 0));
    }
}

proof fn lemma_at_end(p: Seq<char>, t: Seq<char>, i: int, star: Option<usize>, mark: int)
    requires
        matching(p, t, i, t.len() as int, star, mark),
    ensures
        0 <= i <= p.len(),
        glob(p, t) == glob(p.skip(i), seq![]),
{
    reveal(matching);
    assert(t.skip(t.len() as int) =~= seq![]);
    if let Some(si) = star {
        let ps = p.skip(si as int);
        let tm = t.skip(mark);
        let b = p.skip(si + 1);
        assert(ps.skip(1) =~= b);
        lemma_block(b, tm, i - si - 1);
        assert(b.skip(i - si - 1) =~= p.skip(i));
        assert(tm.skip(t.len() - mark) =~= seq![]);
        if glob(ps, tm) {
            let k = lemma_star_rest(ps, tm);
            assert forall|q: int| 0 <= q < i - si - 1 implies #[trigger] b[q] != '*' by {}
            lemma_block_needed(b, tm.skip(k), i - si - 1);
            assert(tm.skip(0) =~= tm);
        }
    }
}

/// Whether `pattern` matches `s`.
pub fn glob_match(pattern: &str, s: &str) -> (r: bool)
    ensures
        r == glob(pattern@, s@),
{
    let p = chars_of(pattern);
    let t = chars_of(s);
    let m: usize = p.len();
    let n: usize = t.len();
    let mut i: usize = 0;
    let mut j: usize = 0;
    let mut star: Option<usize> = None;
    let mut mark: usize = 0;
    proof {
        lemma_start(p@, t@);
    }
    while j < n
        invariant
            m == p.len(),
            n == t.len(),
            p@ == pattern@,
            t@ == s@,
            i <= m,
            mark <= j <= n,
            star matches Some(si) ==> si < i,
            matching(p@, t@, i as int, j as int, star, mark as int),
        decreases n - mark, (n - j) + (m - i),
    {
        if i < m && p[i] == '*' {
            proof {
                lemma_at_star(p@, t@, i as int, j as int, star, mark as int);
            }
            star = Some(i);
            mark = j;
            i += 1;
        } else if i < m && (p[i] == '?' || p[i] == t[j]) {
            proof {
                lemma_at_match(p@, t@, i as int, j as int, star, mark as int);
            }
            i += 1;
            j += 1;
        } else {
            proof {
                lemma_at_mismatch(p@, t@, i as int, j as int, star, mark as int);
            }
            match star {
                Some(si) => {
                    i = si + 1;
                    mark += 1;
                    j = mark;
                },
                None => {
                    return false;
                },
            }
        }
    }
    let ghost from = i as int;
    let ghost rest = p@.skip(from);
    proof {
        lemma_at_end(p@, t@, from, star, mark as int);
    }
    while i < m && p[i] == '*'
        invariant
            m == p.len(),
            0 <= from <= i <= m,
            rest == p@.skip(from),
            forall|k: int| 0 <= k < i - from ==> rest[k] == '*',
        decreases m - i,
    {
        i += 1;
    }
    proof {
        lemma_stars(rest, i - from);
    }
    i == m
}

/// Whether a server name is an IP literal, with or without a port.
pub open spec fn names_ip_literal(domain: Seq<char>) -> bool {
    if domain.len() > 0 && domain[0] == '[' {
        address_of(pieces(domain.skip(1), ']')[0]) is Some
    } else {
        address_of(pieces(domain, ':')[0]) is Some
    }
}

proof fn lemma_pieces_nonempty(s: Seq<char>, sep: char)
    ensures
        pieces(s, sep).len() >= 1,
{
}

/// Whether a server name is an IP literal, with or without a port.
pub fn is_ip_literal(domain: &str) -> (r: bool)
    ensures
        r == names_ip_literal(domain@),
{
    let chars = chars_of(domain);
    let n: usize = chars.len();
    let parts = if n > 0 && chars[0] == '[' {
        let rest = domain.substring_char(1, n);
        proof {
            assert(rest@ =~= domain@.skip(1));
        }
        split(rest, ']')
    } else {
        split(domain, ':')
    };
    proof {
        lemma_pieces_nonempty(domain@, ':');
        lemma_pieces_nonempty(domain@.skip(1), ']');
        assert(texts(parts@).len() == parts@.len());
        assert(texts(parts@)[0] == parts@[0]@);
    }
    parse_ip(parts[0].as_str()).is_some()
}

/// Whether an access control list admits IP literals; it does unless it says
/// otherwise.
pub open spec fn admits_ip_literals(acl: JsonView) -> bool {
    match acl.get("allow_ip_literals"@) {
        Some(v) => v.as_bool() != Some(false),
        None => true,
    }
}

/// The patterns of which a server name must match one: everything, when the
/// list is left out.
pub open spec fn allow_patterns(acl: JsonView) -> Seq<Seq<char>> {
    match acl.array_at("allow"@) {
        Some(v) => strings_in(v),
        None => seq!["*"@],
    }
}

/// The patterns of which a server name must match none.
pub open spec fn deny_patterns(acl: JsonView) -> Seq<Seq<char>> {
    match acl.array_at("deny"@) {
        Some(v) => strings_in(v),
        None => seq![],
    }
}

pub open spec fn some_match(patterns: Seq<Seq<char>>, domain: Seq<char>) -> bool {
    exists|i: int| 0 <= i < patterns.len() && glob(#[trigger] patterns[i], domain)
}

/// The first pattern that matches.
pub open spec fn first_match(patterns: Seq<Seq<char>>, domain: Seq<char>) -> Option<Seq<char>>
    decreases patterns.len(),
{
    if patterns.len() == 0 {
        None
    } else if glob(patterns[0], domain) {
        Some(patterns[0])
    } else {
        first_match(patterns.skip(1), domain)
    }
}

/// Why an access control list refuses a server, if it does.
pub open spec fn acl_refusal(acl: Option<JsonView>, domain: Seq<char>) -> Option<Seq<char>> {
    match acl {
        None => None,
        Some(acl) => if !admits_ip_literals(acl) && names_ip_literal(domain) {
            Some("sender "@ + domain + " is an IP literal but allow_ip_literals=false"@)
        } else {
            match first_match(deny_patterns(acl), domain) {
                Some(pattern) => Some("sender "@ + domain + " matches deny pattern "@ + pattern),
                None => if some_match(allow_patterns(acl), domain) {
                    None
                } else {
                    Some("sender "@ + domain + " matches no allow pattern"@)
                },
            }
        },
    }
}

proof fn lemma_first_match(patterns: Seq<Seq<char>>, domain: Seq<char>, i: int)
    requires
        0 <= i <= patterns.len(),
        forall|k: int| 0 <= k < i ==> !glob(#[trigger] patterns[k], domain),
    ensures
        first_match(patterns, domain) == first_match(patterns.skip(i), domain),
    decreases i,
{
    if i == 0 {
        assert(patterns.skip(0) =~= patterns);
    } else {
        assert(!glob(patterns[0], domain));
        assert forall|k: int| 0 <= k < i - 1 implies !glob(#[trigger] patterns.skip(1)[k], domain) by {
            assert(patterns.skip(1)[k] == patterns[k + 1]);
        }
        lemma_first_match(patterns.skip(1), domain, i - 1);
        assert(patterns.skip(1).skip(i - 1) =~= patterns.skip(i));
    }
}

fn find_match(patterns: &Vec<String>, domain: &str) -> (r: Option<usize>)
    ensures
        match r {
            Some(i) => i < patterns.len() && some_match(texts(patterns@), domain@) && first_match(
                texts(patterns@),
                domain@,
            ) == Some(patterns@[i as int]@),
            None => !some_match(texts(patterns@), domain@) && first_match(
                texts(patterns@),
                domain@,
            ) is None,
        },
{
    let ghost t = texts(patterns@);
    let mut i: usize = 0;
    while i < patterns.len()
        invariant
            i <= patterns.len(),
            t == texts(patterns@),
            forall|k: int| 0 <= k < i ==> !glob(#[trigger] t[k], domain@),
        decreases patterns.len() - i,
    {
        if glob_match(patterns[i].as_str(), domain) {
            proof {
                lemma_first_match(t, domain@, i as int);
                assert(t.skip(i as int)[0] == t[i as int]);
            }
            return Some(i);
        }
        i += 1;
    }
    proof {
        lemma_first_match(t, domain@, i as int);
    }
    None
}

/// Applies a room's access control list to a server name: the reason for which
/// the server is refused, `None` when it may act in the room. A room without a
/// list admits everyone.
pub fn check_server_acl(acl: Option<&Json>, sender_domain: &str) -> (r: Option<String>)
    ensures
        opt_string(r) == acl_refusal(
            match acl {
                Some(a) => Some(a@),
                None => None,
            },
            sender_domain@,
        ),
{
    let acl = match acl {
        Some(a) => a,
        None => {
            return None;
        },
    };
    let ip_ok = match acl.get("allow_ip_literals") {
        Some(v) => match v.as_bool() {
            Some(b) => b,
            None => true,
        },
        None => true,
    };
    if !ip_ok && is_ip_literal(sender_domain) {
        return Some(
            cat3("sender ", sender_domain, " is an IP literal but allow_ip_literals=false"),
        );
    }
    let deny: Vec<String> = match acl.array_at("deny") {
        Some(v) => collect_strings(v),
        None => Vec::new(),
    };
    proof {
        assert(texts(deny@) =~= deny_patterns(acl@));
    }
    match find_match(&deny, sender_domain) {
        Some(i) => {
            return Some(
                cat4("sender ", sender_domain, " matches deny pattern ", deny[i].as_str()),
            );
        },
        None => {},
    }
    let allow: Vec<String> = match acl.array_at("allow") {
        Some(v) => collect_strings(v),
        None => {
            let mut v: Vec<String> = Vec::new();
            v.push("*".to_owned());
            v
        },
    };
    proof {
        assert(texts(allow@) =~= allow_patterns(acl@));
    }
    match find_match(&allow, sender_domain) {
        Some(_) => None,
        None => Some(cat3("sender ", sender_domain, " matches no allow pattern")),
    }
}

/// Applies the access control list of a room, given as the event that sets it.
pub fn check_server_acl_db(event: Option<&Json>, sender_domain: &str) -> (r: Option<String>)
    ensures
        opt_string(r) == acl_refusal(
            match event {
                Some(e) => e@.get("content"@),
                None => None,
            },
            sender_domain@,
        ),
{
    let acl = match event {
        Some(e) => e.get("content"),
        None => None,
    };
    check_server_acl(acl, sender_domain)
}

/// The refusal of a request of a server that the access control list of a room
/// keeps out.
#[verifier::opaque]
pub open spec fn acl_denial(acl: Option<JsonView>, origin: Seq<char>) -> Option<ApiErrorView> {
    match acl_refusal(acl, origin) {
        Some(reason) => Some(api_error(FORBIDDEN, "M_FORBIDDEN"@, "server_acl: "@ + reason)),
        None => None,
    }
}

/// Refuses a request of a server that the access control list of a room keeps
/// out.
pub fn deny_if_blocked(acl: Option<&Json>, origin: &str) -> (r: Result<(), ApiError>)
    ensures
        match acl_denial(opt_json(acl), origin@) {
            Some(denial) => r matches Err(e) && e@ == denial,
            None => r is Ok,
        },
{
    proof {
        reveal(acl_denial);
    }
    match check_server_acl(acl, origin) {
        Some(reason) => {
            let text = cat("server_acl: ", reason.as_str());
            Err(err_response(FORBIDDEN, "M_FORBIDDEN", text.as_str()))
        },
        None => Ok(()),
    }
}

/// The rooms that are known here, each with its access control list if it has
/// one.
pub type RoomAcls = spec_fn(Seq<char>) -> Option<Option<JsonView>>;

/// Whether a lookup of rooms answers from what is known.
pub open spec fn tells_acls<F: Fn(&str) -> Option<Option<Json>>>(f: F, g: RoomAcls) -> bool {
    forall|s: &str, a: Option<Option<Json>>| #[trigger]
        f.ensures((s,), a) ==> g(s@) == (match a {
            Some(Some(acl)) => Some(Some(acl@)),
            Some(None) => Some(None),
            None => None,
        })
}

/// Whether a room admits a server: it is known, and its access control list does
/// not keep the server out.
pub fn admits(acl: &Option<Option<Json>>, origin: &str) -> (r: bool)
    ensures
        r == match acl {
            Some(Some(a)) => acl_refusal(Some(a@), origin@) is None,
            Some(None) => acl_refusal(None, origin@) is None,
            None => false,
        },
{
    match acl {
        Some(a) => check_server_acl(a.as_ref(), origin).is_none(),
        None => false,
    }
}

proof fn lemma_no_first_match(patterns: Seq<Seq<char>>, domain: Seq<char>)
    ensures
        first_match(patterns, domain) is None <==> (forall|i: int|
            0 <= i < patterns.len() ==> !glob(#[trigger] patterns[i], domain)),
    decreases patterns.len(),
{
    if patterns.len() > 0 {
        let rest = patterns.skip(1);
        lemma_no_first_match(rest, domain);
        if !glob(patterns[0], domain) {
            if first_match(rest, domain) is None {
                assert forall|i: int| 0 <= i < patterns.len() implies !glob(
                    #[trigger] patterns[i],
                    domain,
                ) by {
                    if i > 0 {
                        assert(rest[i - 1] == patterns[i]);
                    }
                }
            } else {
                let k = choose|k: int| 0 <= k < rest.len() && glob(#[trigger] rest[k], domain);
                assert(patterns[k + 1] == rest[k]);
            }
        }
    }
}

/// A list admits a server exactly if it takes no offence at an IP literal, no
/// `deny` pattern matches the server, and some `allow` pattern does.
pub proof fn law_acl(acl: JsonView, domain: Seq<char>)
    ensures
        acl_refusal(Some(acl), domain) is None <==> {
            &&& admits_ip_literals(acl) || !names_ip_literal(domain)
            &&& forall|i: int|
                0 <= i < deny_patterns(acl).len() ==> !glob(
                    #[trigger] deny_patterns(acl)[i],
                    domain,
                )
            &&& exists|i: int|
                0 <= i < allow_patterns(acl).len() && glob(
                    #[trigger] allow_patterns(acl)[i],
                    domain,
                )
        },
{
    lemma_no_first_match(deny_patterns(acl), domain);
}

/// An empty `allow` list keeps everyone out; without a list at all a room is
/// open.
pub proof fn law_acl_extremes(acl: JsonView, domain: Seq<char>)
    ensures
        allow_patterns(acl).len() == 0 ==> acl_refusal(Some(acl), domain) is Some,
        acl_refusal(None, domain) is None,
{
    law_acl(acl, domain);
}

/// A star matches everything; a pattern without wildcards matches only itself.
pub proof fn law_globs(p: Seq<char>, s: Seq<char>)
    ensures
        glob(seq!['*'], s),
        (forall|i: int| 0 <= i < p.len() ==> #[trigger] p[i] != '*' && p[i] != '?') ==> (glob(
            p,
            s,
        ) <==> p == s),
    decreases p.len() + s.len(),
{
    let star = seq!['*'];
    if s.len() == 0 {
        assert(star.skip(1) =~= seq![]);
        assert(glob(star.skip(1), s));
    } else {
        law_globs(seq![], s.skip(1));
    }
    if forall|i: int| 0 <= i < p.len() ==> #[trigger] p[i] != '*' && p[i] != '?' {
        if p.len() == 0 {
            assert(s.len() == 0 ==> p =~= s);
        } else {
            assert(p[0] != '*' && p[0] != '?');
            let q = p.skip(1);
            assert forall|i: int| 0 <= i < q.len() implies #[trigger] q[i] != '*' && q[i]
                != '?' by {
                assert(q[i] == p[i + 1]);
            }
            if s.len() > 0 {
                law_globs(q, s.skip(1));
                assert(p =~= seq![p[0]] + q);
                assert(s =~= seq![s[0]] + s.skip(1));
                if p == s {
                    assert(q == s.skip(1));
                }
            }
        }
    }
}

/// The lists of an access control list are the strings that it names, all of them;
/// where it names no `allow` list everything is allowed. IP literals are admitted
/// unless it says that they are not.
pub proof fn law_acl_lists(acl: JsonView, p: Seq<char>)
    ensures
        match acl.get("deny"@) {
            Some(JsonView::Array(v)) => deny_patterns(acl).contains(p) <==> v.contains(
                JsonView::Str(p),
            ),
            _ => deny_patterns(acl).len() == 0,
        },
        match acl.get("allow"@) {
            Some(JsonView::Array(v)) => allow_patterns(acl).contains(p) <==> v.contains(
                JsonView::Str(p),
            ),
            _ => allow_patterns(acl) == seq![seq!['*']],
        },
        admits_ip_literals(acl) <==> acl.get("allow_ip_literals"@) != Some(JsonView::Bool(false)),
{
    reveal_strlit("*");
    assert("*"@ =~= seq!['*']);
    if let Some(JsonView::Array(v)) = acl.get("deny"@) {
        law_strings(v);
        if v.contains(JsonView::Str(p)) {
            let i = choose|i: int| 0 <= i < v.len() && v[i] == JsonView::Str(p);
            assert(v[i] is Str);
        }
    }
    if let Some(JsonView::Array(v)) = acl.get("allow"@) {
        law_strings(v);
        if v.contains(JsonView::Str(p)) {
            let i = choose|i: int| 0 <= i < v.len() && v[i] == JsonView::Str(p);
            assert(v[i] is Str);
        }
    }
}

/// A star stands for any run of characters and a question mark for any one: what is
/// left of the pattern has to match what is left of the text.
pub proof fn law_wildcards(q: Seq<char>, s: Seq<char>)
    ensures
        glob(seq!['*'] + q, s) <==> exists|k: int|
            0 <= k <= s.len() && glob(q, #[trigger] s.skip(k)),
        glob(seq!['?'] + q, s) <==> s.len() > 0 && glob(q, s.skip(1)),
    decreases s.len(),
{
    let p = seq!['*'] + q;
    let w = seq!['?'] + q;
    assert(p.skip(1) =~= q);
    assert(w.skip(1) =~= q);
    assert(p[0] == '*' && w[0] == '?');
    assert(s.skip(0) =~= s);
    if s.len() > 0 {
        let t = s.skip(1);
        law_wildcards(q, t);
        if exists|k: int| 0 <= k <= t.len() && glob(q, #[trigger] t.skip(k)) {
            let k = choose|k: int| 0 <= k <= t.len() && glob(q, #[trigger] t.skip(k));
            assert(s.skip(k + 1) =~= t.skip(k));
            assert(glob(q, s.skip(k + 1)));
        }
        if exists|k: int| 0 <= k <= s.len() && glob(q, #[trigger] s.skip(k)) {
            let k = choose|k: int| 0 <= k <= s.len() && glob(q, #[trigger] s.skip(k));
            if k > 0 {
                assert(t.skip(k - 1) =~= s.skip(k));
                assert(glob(q, t.skip(k - 1)));
            } else {
                assert(glob(q, s));
            }
        }
        if glob(q, s) {
            assert(glob(q, s.skip(0)));
        }
    } else {
        if glob(q, s) {
            assert(glob(q, s.skip(0)));
        }
        if exists|k: int| 0 <= k <= s.len() && glob(q, #[trigger] s.skip(k)) {
            let k = choose|k: int| 0 <= k <= s.len() && glob(q, #[trigger] s.skip(k));
            assert(k == 0);
        }
    }
}

/// A server name is an IP literal whatever port stands behind it.
pub proof fn law_ip_literals(host: Seq<char>, rest: Seq<char>)
    ensures
        host.len() > 0 && host[0] != '[' && !host.contains(':') ==> {
            &&& names_ip_literal(host) <==> address_of(host) is Some
            &&& names_ip_literal(host + seq![':'] + rest) <==> address_of(host) is Some
        },
        !host.contains(']') ==> (names_ip_literal(seq!['['] + (host + seq![']'] + rest))
            <==> address_of(host) is Some),
{
    law_pieces(host, ':');
    law_pieces_apart(host, rest, ':');
    law_pieces_apart(host, rest, ']');
    if host.len() > 0 {
        assert((host + seq![':'] + rest)[0] == host[0]);
    }
    if host.len() > 0 && !host.contains(':') {
        assert(pieces(host, ':') =~= seq![host]);
        assert(pieces(host + seq![':'] + rest, ':')[0] == host);
    }
    let s = seq!['['] + (host + seq![']'] + rest);
    assert(s.skip(1) =~= host + seq![']'] + rest);
    assert(s[0] == '[');
}

/// A server that the access control list of a room keeps out is refused, and no
/// other is.
pub proof fn law_denials(acl: Option<JsonView>, origin: Seq<char>)
    ensures
        acl_denial(acl, origin) is Some <==> acl_refusal(acl, origin) is Some,
        acl_denial(acl, origin) matches Some(e) ==> e.status == 403 && e.body.get("errcode"@)
            == Some(JsonView::Str("M_FORBIDDEN"@)),
{
    reveal(acl_denial);
    if let Some(reason) = acl_refusal(acl, origin) {
        crate::api::law_errors(403, "M_FORBIDDEN"@, "server_acl: "@ + reason);
    }
}

} // verus!
