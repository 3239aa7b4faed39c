//! Walks over the graph in which an event points at the events that authorise
//! it.

use vstd::prelude::*;
use vstd::string::*;

use crate::json::lemma_values_push;
use crate::json::values;
use crate::json::Json;
use crate::json::JsonView;
use crate::text::cat;
use crate::text::lemma_has_push;
use crate::text::lemma_texts_push;
use crate::text::list_has;
use crate::text::texts;

verus! {

/// The most events that a walk collects.
pub const AUTH_CHAIN_MAX: usize = 10_000;

/// What the store says of an event's auth events: the reason of a failed read,
/// `None` for an event that is not stored.
pub type AuthLookup = Result<Option<Vec<String>>, String>;

/// A graph of events as the store answers for it.
pub type AuthGraph = spec_fn(Seq<char>) -> Result<Option<Seq<Seq<char>>>, Seq<char>>;

/// The mathematical value of an answer of the store.
pub open spec fn lookup_view(a: AuthLookup) -> Result<Option<Seq<Seq<char>>>, Seq<char>> {
    match a {
        Ok(Some(v)) => Ok(Some(texts(v@))),
        Ok(None) => Ok(None),
        Err(e) => Err(e@),
    }
}

/// Whether a lookup answers from a graph.
pub open spec fn answers_from<F: Fn(&str) -> AuthLookup>(lookup: F, g: AuthGraph) -> bool {
    forall|s: &str, a: AuthLookup| #[trigger]
        lookup.ensures((s,), a) ==> lookup_view(a) == g(s@)
}

/// Whether `b` is one of the auth events of `a`.
pub open spec fn edge(g: AuthGraph, a: Seq<char>, b: Seq<char>) -> bool {
    match g(a) {
        Ok(Some(v)) => v.contains(b),
        _ => false,
    }
}

/// Whether a list of events is a path: each is an auth event of the one before.
pub open spec fn is_path(g: AuthGraph, p: Seq<Seq<char>>) -> bool {
    &&& p.len() > 0
    &&& forall|i: int| 0 <= i < p.len() - 1 ==> edge(g, #[trigger] p[i], p[i + 1])
}

/// Whether an event is an ancestor of one of `from`: at the end of a path of at
/// least one step.
pub open spec fn is_ancestor(g: AuthGraph, from: Seq<Seq<char>>, x: Seq<char>) -> bool {
    exists|p: Seq<Seq<char>>| #[trigger] ancestor_path(g, from, x, p)
}

pub open spec fn ancestor_path(
    g: AuthGraph,
    from: Seq<Seq<char>>,
    x: Seq<char>,
    p: Seq<Seq<char>>,
) -> bool {
    is_path(g, p) && p.len() >= 2 && from.contains(p[0]) && p.last() == x
}

/// Whether an event is one of `from` or an ancestor of one.
pub open spec fn in_chain(g: AuthGraph, from: Seq<Seq<char>>, x: Seq<char>) -> bool {
    from.contains(x) || is_ancestor(g, from, x)
}

proof fn lemma_step(g: AuthGraph, from: Seq<Seq<char>>, a: Seq<char>, b: Seq<char>)
    requires
        in_chain(g, from, a),
        edge(g, a, b),
    ensures
        is_ancestor(g, from, b),
{
    if from.contains(a) {
        let p = seq![a, b];
        assert(p[0] == a && p[1] == b);
        assert(ancestor_path(g, from, b, p));
    } else {
        let p = choose|p: Seq<Seq<char>>| ancestor_path(g, from, a, p);
        let q = p.push(b);
        assert forall|i: int| 0 <= i < q.len() - 1 implies edge(g, #[trigger] q[i], q[i + 1]) by {
            if i < p.len() - 1 {
                assert(edge(g, p[i], p[i + 1]));
            }
        }
        assert(ancestor_path(g, from, b, q));
    }
}

/// A set of events that holds `from` and all auth events of its members holds
/// every ancestor.
proof fn lemma_closed(g: AuthGraph, from: Seq<Seq<char>>, seen: Seq<Seq<char>>, x: Seq<char>)
    requires
        forall|a: Seq<char>| from.contains(a) ==> seen.contains(a),
        forall|a: Seq<char>, b: Seq<char>|
            seen.contains(a) && #[trigger] edge(g, a, b) ==> seen.contains(b),
        in_chain(g, from, x),
    ensures
        seen.contains(x),
{
    if !from.contains(x) {
        let p = choose|p: Seq<Seq<char>>| ancestor_path(g, from, x, p);
        lemma_closed_path(g, seen, p, p.len() - 1);
    }
}

proof fn lemma_closed_path(g: AuthGraph, seen: Seq<Seq<char>>, p: Seq<Seq<char>>, k: int)
    requires
        is_path(g, p),
        seen.contains(p[0]),
        0 <= k < p.len(),
        forall|a: Seq<char>, b: Seq<char>|
            seen.contains(a) && #[trigger] edge(g, a, b) ==> seen.contains(b),
    ensures
        seen.contains(p[k]),
    decreases k,
{
    if k > 0 {
        lemma_closed_path(g, seen, p, k - 1);
        assert(edge(g, p[k - 1], p[k - 1 + 1]));
    }
}

/// Whether the events before `done` were expanded: their auth events were all
/// seen.
spec fn expanded(g: AuthGraph, seen: Seq<Seq<char>>, done: int) -> bool {
    forall|i: int, b: Seq<char>|
        0 <= i < done && #[trigger] edge(g, seen[i], b) ==> seen.contains(b)
}

/// What holds of the events seen by a walk from `from`, when `done` of them were
/// expanded.
spec fn walking(g: AuthGraph, from: Seq<Seq<char>>, seen: Seq<Seq<char>>, done: int) -> bool {
    &&& seen.no_duplicates()
    &&& forall|x: Seq<char>| from.contains(x) ==> seen.contains(x)
    &&& forall|i: int| 0 <= i < seen.len() ==> in_chain(g, from, #[trigger] seen[i])
    &&& expanded(g, seen, done)
    &&& forall|i: int| 0 <= i < done ==> g(#[trigger] seen[i]) is Ok
}

/// What a finished walk found: every event seen once, exactly the chain of
/// `from`, every answer a good one.
pub open spec fn complete(g: AuthGraph, from: Seq<Seq<char>>, seen: Seq<Seq<char>>) -> bool {
    &&& seen.no_duplicates()
    &&& forall|x: Seq<char>| seen.contains(x) <==> in_chain(g, from, x)
    &&& forall|x: Seq<char>| in_chain(g, from, x) ==> g(x) is Ok
}

/// What a walk found that stopped at the limit: events of the chain, each once.
pub open spec fn partial(g: AuthGraph, from: Seq<Seq<char>>, seen: Seq<Seq<char>>) -> bool {
    &&& seen.no_duplicates()
    &&& forall|x: Seq<char>| seen.contains(x) ==> in_chain(g, from, x)
}

/// A list without its repeats: of each item the first occurrence.
pub open spec fn distinct(v: Seq<Seq<char>>) -> Seq<Seq<char>>
    decreases v.len(),
{
    if v.len() == 0 {
        seq![]
    } else {
        let front = distinct(v.drop_last());
        if front.contains(v.last()) {
            front
        } else {
            front.push(v.last())
        }
    }
}

/// Removes the repeats from a list, keeping first occurrences.
fn dedup(v: &Vec<String>) -> (r: Vec<String>)
    ensures
        texts(r@) == distinct(texts(v@)),
        texts(r@).no_duplicates(),
        forall|x: Seq<char>| texts(r@).contains(x) <==> texts(v@).contains(x),
        r@.len() <= v@.len(),
{
    let mut out: Vec<String> = Vec::new();
    let mut i: usize = 0;
    proof {
        assert(texts(out@) =~= distinct(texts(v@).take(0)));
    }
    while i < v.len()
        invariant
            i <= v.len(),
            out@.len() <= i,
            texts(out@) == distinct(texts(v@).take(i as int)),
            texts(out@).no_duplicates(),
            forall|x: Seq<char>| texts(out@).contains(x) <==> texts(v@).take(i as int).contains(x),
        decreases v.len() - i,
    {
        let ghost before = texts(out@);
        let ghost taken = texts(v@).take(i as int);
        let ghost item = v@[i as int]@;
        if !list_has(&out, v[i].as_str()) {
            let s = v[i].clone();
            proof {
                lemma_texts_push(out@, s);
            }
            out.push(s);
            proof {
                assert(before.push(item).last() == item);
            }
        }
        i += 1;
        proof {
            assert(texts(v@).take(i as int) =~= taken.push(item));
            assert(taken.push(item).drop_last() =~= taken);
            assert forall|x: Seq<char>| texts(out@).contains(x) <==> texts(v@).take(
                i as int,
            ).contains(x) by {
                lemma_has_push(taken, item, x);
                lemma_has_push(before, item, x);
            }
        }
    }
    proof {
        assert(texts(v@).take(i as int) =~= texts(v@));
    }
    out
}

proof fn lemma_visit(
    g: AuthGraph,
    from: Seq<Seq<char>>,
    seen: Seq<Seq<char>>,
    done: int,
    at: int,
    b: Seq<char>,
)
    requires
        walking(g, from, seen, done),
        0 <= done <= at < seen.len(),
        edge(g, seen[at], b),
        !seen.contains(b),
    ensures
        walking(g, from, seen.push(b), done),
{
    let next = seen.push(b);
    assert(in_chain(g, from, seen[at]));
    lemma_step(g, from, seen[at], b);
    assert forall|i: int| 0 <= i < next.len() implies in_chain(g, from, #[trigger] next[i]) by {
        if i < seen.len() {
            assert(in_chain(g, from, seen[i]));
        }
    }
    assert forall|x: Seq<char>| from.contains(x) implies next.contains(x) by {
        lemma_has_push(seen, b, x);
    }
    assert forall|i: int, c: Seq<char>|
        0 <= i < done && #[trigger] edge(g, next[i], c) implies next.contains(c) by {
        assert(edge(g, seen[i], c));
        lemma_has_push(seen, b, c);
    }
    assert forall|i: int| 0 <= i < done implies g(#[trigger] next[i]) is Ok by {
        assert(g(seen[i]) is Ok);
    }
}

proof fn lemma_expanded(g: AuthGraph, from: Seq<Seq<char>>, seen: Seq<Seq<char>>, done: int)
    requires
        walking(g, from, seen, done),
        0 <= done < seen.len(),
        g(seen[done]) is Ok,
        g(seen[done])->Ok_0 matches Some(v) ==> forall|j: int|
            0 <= j < v.len() ==> seen.contains(#[trigger] v[j]),
    ensures
        walking(g, from, seen, done + 1),
{
    assert forall|i: int, c: Seq<char>|
        0 <= i < done + 1 && #[trigger] edge(g, seen[i], c) implies seen.contains(c) by {
        if i == done {
            let v = g(seen[done])->Ok_0->0;
            let j = choose|j: int| 0 <= j < v.len() && v[j] == c;
            assert(seen.contains(v[j]));
        }
    }
}

proof fn lemma_walked(g: AuthGraph, from: Seq<Seq<char>>, seen: Seq<Seq<char>>)
    requires
        walking(g, from, seen, seen.len() as int),
    ensures
        complete(g, from, seen),
{
    assert forall|a: Seq<char>, b: Seq<char>|
        seen.contains(a) && #[trigger] edge(g, a, b) implies seen.contains(b) by {
        let i = choose|i: int| 0 <= i < seen.len() && seen[i] == a;
        assert(edge(g, seen[i], b));
    }
    assert forall|x: Seq<char>| seen.contains(x) <==> in_chain(g, from, x) by {
        if in_chain(g, from, x) {
            lemma_closed(g, from, seen, x);
        }
        if seen.contains(x) {
            let i = choose|i: int| 0 <= i < seen.len() && seen[i] == x;
            assert(in_chain(g, from, seen[i]));
        }
    }
    assert forall|x: Seq<char>| in_chain(g, from, x) implies g(x) is Ok by {
        assert(seen.contains(x));
        let i = choose|i: int| 0 <= i < seen.len() && seen[i] == x;
        assert(g(seen[i]) is Ok);
    }
}

proof fn lemma_walking_partial(g: AuthGraph, from: Seq<Seq<char>>, seen: Seq<Seq<char>>, done: int)
    requires
        walking(g, from, seen, done),
    ensures
        partial(g, from, seen),
{
    assert forall|x: Seq<char>| seen.contains(x) implies in_chain(g, from, x) by {
        let i = choose|i: int| 0 <= i < seen.len() && seen[i] == x;
        assert(in_chain(g, from, seen[i]));
    }
}

/// What a walk from `from` over a graph gives: the events seen, the first `k`
/// of them being those it started with. It stops early only when the limit is
/// reached, and fails only on a failed read.
spec fn walk_result(
    g: AuthGraph,
    from: Seq<Seq<char>>,
    count_from: bool,
    r: Result<(Vec<String>, usize), String>,
) -> bool {
    match r {
        Ok((seen, k)) => {
            let s = texts(seen@);
            let base = if count_from {
                0
            } else {
                k as int
            };
            &&& k <= s.len()
            &&& s.take(k as int) == distinct(from)
            &&& forall|x: Seq<char>| s.take(k as int).contains(x) <==> from.contains(x)
            &&& if s.len() > k && s.len() - base >= AUTH_CHAIN_MAX {
                partial(g, from, s) && (s.len() - base == AUTH_CHAIN_MAX || s.len() == k + 1)
            } else {
                complete(g, from, s)
            }
        },
        Err(e) => failed_read(g, from, e@),
    }
}

/// Whether `e` reports a failed read of an event of the chain.
pub open spec fn failed_read(g: AuthGraph, from: Seq<Seq<char>>, e: Seq<char>) -> bool {
    exists|x: Seq<char>| #[trigger] failed_at(g, from, x, e)
}

pub open spec fn failed_at(
    g: AuthGraph,
    from: Seq<Seq<char>>,
    x: Seq<char>,
    e: Seq<char>,
) -> bool {
    &&& in_chain(g, from, x)
    &&& g(x) is Err
    &&& e == "db: "@ + g(x)->Err_0
}

/// Whether some part of an auth chain could not be read, as `e` reports.
pub open spec fn is_unreadable<F: Fn(&str) -> AuthLookup>(
    auth_of: F,
    seeds: Seq<Seq<char>>,
    e: Seq<char>,
) -> bool {
    forall|g: AuthGraph| #[trigger] answers_from(auth_of, g) ==> failed_read(g, seeds, e)
}

/// Walks from `from` to all ancestors, one event at a time, in the order in
/// which they are met, until `AUTH_CHAIN_MAX` events were collected; the events
/// it started with count only with `count_from`.
fn walk<F: Fn(&str) -> AuthLookup>(from: &Vec<String>, count_from: bool, auth_of: F) -> (r: Result<
    (Vec<String>, usize),
    String,
>)
    requires
        forall|s: &str| #[trigger] auth_of.requires((s,)),
        from@.len() <= usize::MAX - AUTH_CHAIN_MAX,
    ensures
        forall|g: AuthGraph| #[trigger]
            answers_from(auth_of, g) ==> walk_result(g, texts(from@), count_from, r),
        r matches Ok((seen, k)) ==> k <= seen@.len(),
{
    let mut seen = dedup(from);
    let k: usize = seen.len();
    let base: usize = if count_from {
        0
    } else {
        k
    };
    let ghost start = texts(from@);
    let ghost roots = texts(seen@);
    proof {
        assert(roots.take(k as int) =~= roots);
    }
    let mut done: usize = 0;
    while done < seen.len()
        invariant
            forall|s: &str| #[trigger] auth_of.requires((s,)),
            done <= seen.len(),
            k <= seen.len(),
            base == (if count_from {
                0
            } else {
                k
            }),
            k <= usize::MAX - AUTH_CHAIN_MAX,
            start == texts(from@),
            seen.len() - base < AUTH_CHAIN_MAX || seen.len() == k,
            texts(seen@).take(k as int) == roots,
            roots == distinct(start),
            forall|x: Seq<char>| roots.contains(x) <==> start.contains(x),
            forall|g: AuthGraph| #[trigger]
                answers_from(auth_of, g) ==> walking(g, start, texts(seen@), done as int),
        decreases k + AUTH_CHAIN_MAX - seen.len(), seen.len() - done,
    {
        let ghost here = texts(seen@)[done as int];
        let answer = auth_of(seen[done].as_str());
        match answer {
            Err(e) => {
                let text = cat("db: ", e.as_str());
                proof {
                    assert forall|g: AuthGraph| #[trigger] answers_from(auth_of, g) implies failed_read(
                        g,
                        start,
                        text@,
                    ) by {
                        assert(walking(g, start, texts(seen@), done as int));
                        assert(in_chain(g, start, texts(seen@)[done as int]));
                        assert(failed_at(g, start, here, text@));
                    }
                }
                return Err(text);
            },
            Ok(None) => {
                proof {
                    assert forall|g: AuthGraph| #[trigger] answers_from(auth_of, g) implies walking(
                        g,
                        start,
                        texts(seen@),
                        done + 1,
                    ) by {
                        lemma_expanded(g, start, texts(seen@), done as int);
                    }
                }
            },
            Ok(Some(auths)) => {
                let ghost found = texts(auths@);
                let ghost size = seen@.len();
                let mut j: usize = 0;
                while j < auths.len()
                    invariant
                        size <= seen.len(),
                        done < seen.len(),
                        j <= auths.len(),
                        k <= seen.len(),
                        base == (if count_from {
                            0
                        } else {
                            k
                        }),
                        start == texts(from@),
                        found == texts(auths@),
                        seen.len() - base < AUTH_CHAIN_MAX || seen.len() == k,
                        texts(seen@).take(k as int) == roots,
                        roots == distinct(start),
                        forall|x: Seq<char>| roots.contains(x) <==> start.contains(x),
                        here == texts(seen@)[done as int],
                        forall|g: AuthGraph| #[trigger]
                            answers_from(auth_of, g) ==> g(here) == Ok::<
                                Option<Seq<Seq<char>>>,
                                Seq<char>,
                            >(Some(found)),
                        forall|g: AuthGraph| #[trigger]
                            answers_from(auth_of, g) ==> walking(
                                g,
                                start,
                                texts(seen@),
                                done as int,
                            ),
                        forall|i: int|
                            0 <= i < j ==> texts(seen@).contains(#[trigger] found[i]),
                    decreases auths.len() - j,
                {
                    let ghost b = found[j as int];
                    if !list_has(&seen, auths[j].as_str()) {
                        let s = auths[j].clone();
                        let ghost before = texts(seen@);
                        proof {
                            lemma_texts_push(seen@, s);
                        }
                        seen.push(s);
                        proof {
                            assert(texts(seen@) == before.push(b));
                            assert(texts(seen@).take(k as int) =~= before.take(k as int));
                            assert forall|g: AuthGraph| #[trigger]
                                answers_from(auth_of, g) implies walking(
                                g,
                                start,
                                texts(seen@),
                                done as int,
                            ) by {
                                assert(found.contains(b));
                                lemma_visit(g, start, before, done as int, done as int, b);
                            }
                            assert forall|i: int| 0 <= i < j + 1 implies texts(seen@).contains(
                                #[trigger] found[i],
                            ) by {
                                lemma_has_push(before, b, found[i]);
                            }
                        }
                        if seen.len() - base >= AUTH_CHAIN_MAX {
                            proof {
                                assert forall|g: AuthGraph| #[trigger]
                                    answers_from(auth_of, g) implies partial(
                                    g,
                                    start,
                                    texts(seen@),
                                ) by {
                                    lemma_walking_partial(g, start, texts(seen@), done as int);
                                }
                            }
                            return Ok((seen, k));
                        }
                    }
                    j += 1;
                }
                proof {
                    assert forall|g: AuthGraph| #[trigger] answers_from(auth_of, g) implies walking(
                        g,
                        start,
                        texts(seen@),
                        done + 1,
                    ) by {
                        lemma_expanded(g, start, texts(seen@), done as int);
                    }
                }
            },
        }
        done += 1;
    }
    proof {
        assert forall|g: AuthGraph| #[trigger] answers_from(auth_of, g) implies complete(
            g,
            start,
            texts(seen@),
        ) by {
            lemma_walked(g, start, texts(seen@));
        }
    }
    Ok((seen, k))
}

/// The union of the auth chains of `roots`, without the roots themselves: every
/// ancestor once. At most `AUTH_CHAIN_MAX` events; a chain of that size or more
/// is cut there.
pub fn auth_chain_union_event_ids<F: Fn(&str) -> AuthLookup>(
    roots: &Vec<String>,
    auth_of: F,
) -> (r: Result<Vec<String>, String>)
    requires
        forall|s: &str| #[trigger] auth_of.requires((s,)),
        roots@.len() <= usize::MAX - AUTH_CHAIN_MAX,
    ensures
        forall|g: AuthGraph| #[trigger]
            answers_from(auth_of, g) ==> match r {
                Ok(v) => union_of(g, texts(roots@), texts(v@)),
                Err(e) => failed_read(g, texts(roots@), e@),
            },
{
    let (seen, k) = match walk(roots, false, auth_of) {
        Ok(p) => p,
        Err(e) => {
            return Err(e);
        },
    };
    let ghost s = texts(seen@);
    let mut out: Vec<String> = Vec::new();
    let mut i: usize = k;
    proof {
        assert(texts(out@) =~= s.subrange(k as int, k as int));
    }
    while i < seen.len()
        invariant
            s == texts(seen@),
            k <= i <= seen.len(),
            texts(out@) == s.subrange(k as int, i as int),
        decreases seen.len() - i,
    {
        let x = seen[i].clone();
        proof {
            lemma_texts_push(out@, x);
        }
        out.push(x);
        i += 1;
        proof {
            assert(s.subrange(k as int, i as int) =~= s.subrange(k as int, i - 1).push(s[i - 1]));
        }
    }
    proof {
        assert forall|g: AuthGraph| #[trigger] answers_from(auth_of, g) implies union_of(
            g,
            texts(roots@),
            texts(out@),
        ) by {
            lemma_union(g, texts(roots@), s, k as int, texts(out@));
        }
    }
    Ok(out)
}

/// What the union of auth chains is: no event twice, no root; all ancestors that
/// are not roots, or, at the limit, that many of them.
pub open spec fn union_of(g: AuthGraph, roots: Seq<Seq<char>>, v: Seq<Seq<char>>) -> bool {
    &&& v.no_duplicates()
    &&& v.len() <= AUTH_CHAIN_MAX
    &&& forall|x: Seq<char>| v.contains(x) ==> is_ancestor(g, roots, x) && !roots.contains(x)
    &&& v.len() < AUTH_CHAIN_MAX ==> {
        &&& forall|x: Seq<char>| is_ancestor(g, roots, x) && !roots.contains(x) ==> v.contains(x)
        &&& forall|x: Seq<char>| in_chain(g, roots, x) ==> g(x) is Ok
    }
}

proof fn lemma_union(
    g: AuthGraph,
    roots: Seq<Seq<char>>,
    s: Seq<Seq<char>>,
    k: int,
    v: Seq<Seq<char>>,
)
    requires
        0 <= k <= s.len(),
        v == s.subrange(k, s.len() as int),
        forall|x: Seq<char>| s.take(k).contains(x) <==> roots.contains(x),
        if s.len() > k && s.len() - k >= AUTH_CHAIN_MAX {
            partial(g, roots, s) && (s.len() - k == AUTH_CHAIN_MAX || s.len() == k + 1)
        } else {
            complete(g, roots, s)
        },
    ensures
        union_of(g, roots, v),
{
    assert forall|x: Seq<char>| v.contains(x) implies is_ancestor(g, roots, x) && !roots.contains(
        x,
    ) by {
        let i = choose|i: int| 0 <= i < v.len() && v[i] == x;
        assert(s[k + i] == x);
        assert(s.contains(x));
        if roots.contains(x) {
            let j = choose|j: int| 0 <= j < s.take(k).len() && s.take(k)[j] == x;
            assert(s[j] == s[k + i]);
        }
    }
    if v.len() < AUTH_CHAIN_MAX {
        assert forall|x: Seq<char>| is_ancestor(g, roots, x) && !roots.contains(x) implies v.contains(
            x,
        ) by {
            assert(in_chain(g, roots, x));
            assert(s.contains(x));
            let i = choose|i: int| 0 <= i < s.len() && s[i] == x;
            if i < k {
                assert(s.take(k)[i] == x);
            } else {
                assert(v[i - k] == x);
            }
        }
    }
}

/// The auth chain of an event that lists `seeds` as its auth events: the seeds
/// in their order, then all their ancestors, each once. Once the list holds `AUTH_CHAIN_MAX`
/// events no ancestor is added.
pub fn auth_chain_including_seeds<F: Fn(&str) -> AuthLookup>(
    seeds: &Vec<String>,
    auth_of: F,
) -> (r: Result<Vec<String>, String>)
    requires
        forall|s: &str| #[trigger] auth_of.requires((s,)),
        seeds@.len() <= usize::MAX - AUTH_CHAIN_MAX,
    ensures
        forall|g: AuthGraph| #[trigger]
            answers_from(auth_of, g) ==> match r {
                Ok(v) => chain_of(g, texts(seeds@), texts(v@)),
                Err(e) => failed_read(g, texts(seeds@), e@),
            },
{
    match walk(seeds, true, auth_of) {
        Ok((seen, k)) => {
            proof {
                assert forall|g: AuthGraph| #[trigger] answers_from(auth_of, g) implies chain_of(
                    g,
                    texts(seeds@),
                    texts(seen@),
                ) by {
                    lemma_chain(g, texts(seeds@), texts(seen@), k as int);
                }
            }
            Ok(seen)
        },
        Err(e) => Err(e),
    }
}

/// What an auth chain is: no event twice, first the seeds in their order, only
/// events of the chain; all of it, unless the limit was reached.
pub open spec fn chain_of(g: AuthGraph, seeds: Seq<Seq<char>>, v: Seq<Seq<char>>) -> bool {
    &&& v.no_duplicates()
    &&& distinct(seeds).len() <= v.len()
    &&& v.take(distinct(seeds).len() as int) == distinct(seeds)
    &&& forall|x: Seq<char>| seeds.contains(x) ==> v.contains(x)
    &&& forall|x: Seq<char>| v.contains(x) ==> in_chain(g, seeds, x)
    &&& v.len() < AUTH_CHAIN_MAX ==> {
        &&& forall|x: Seq<char>| in_chain(g, seeds, x) ==> v.contains(x)
        &&& forall|x: Seq<char>| in_chain(g, seeds, x) ==> g(x) is Ok
    }
}

proof fn lemma_chain(g: AuthGraph, seeds: Seq<Seq<char>>, s: Seq<Seq<char>>, k: int)
    requires
        0 <= k <= s.len(),
        s.take(k) == distinct(seeds),
        forall|x: Seq<char>| s.take(k).contains(x) <==> seeds.contains(x),
        if s.len() > k && s.len() >= AUTH_CHAIN_MAX {
            partial(g, seeds, s)
        } else {
            complete(g, seeds, s)
        },
    ensures
        chain_of(g, seeds, s),
{
    assert forall|x: Seq<char>| seeds.contains(x) implies s.contains(x) by {
        let j = choose|j: int| 0 <= j < s.take(k).len() && s.take(k)[j] == x;
        assert(s[j] == x);
    }
}

/// The ids of a chain as the store lists them, or why it could not be read: an
/// event that the store has no id for is left out.
pub open spec fn listed_ids(v: Seq<Result<Option<String>, String>>) -> Result<
    Seq<Seq<char>>,
    Seq<char>,
>
    decreases v.len(),
{
    if v.len() == 0 {
        Ok(seq![])
    } else {
        match listed_ids(v.drop_last()) {
            Err(e) => Err(e),
            Ok(ids) => match v.last() {
                Err(e) => Err("db: "@ + e@),
                Ok(None) => Ok(ids),
                Ok(Some(id)) => Ok(ids.push(id@)),
            },
        }
    }
}

/// The auth chain of a stored event, or why there is none.
pub open spec fn stored_chain(
    event_id: Seq<char>,
    known: Result<bool, String>,
    chain: Result<Vec<Result<Option<String>, String>>, String>,
) -> Result<Seq<Seq<char>>, Seq<char>> {
    match known {
        Err(e) => Err("db: "@ + e@),
        Ok(false) => Err("unknown event "@ + event_id),
        Ok(true) => match chain {
            Err(e) => Err("db: "@ + e@),
            Ok(v) => listed_ids(v@),
        },
    }
}

pub open spec fn ids_view(r: Result<Vec<String>, String>) -> Result<Seq<Seq<char>>, Seq<char>> {
    match r {
        Ok(v) => Ok(texts(v@)),
        Err(e) => Err(e@),
    }
}

/// The auth chain of a stored event. `known` says whether the event is stored,
/// `chain` what the store lists as its chain.
pub fn auth_chain_event_ids(
    event_id: &str,
    known: &Result<bool, String>,
    chain: &Result<Vec<Result<Option<String>, String>>, String>,
) -> (r: Result<Vec<String>, String>)
    ensures
        ids_view(r) == stored_chain(event_id@, *known, *chain),
{
    match known {
        Err(e) => {
            return Err(cat("db: ", e.as_str()));
        },
        Ok(stored) => {
            if !*stored {
                return Err(cat("unknown event ", event_id));
            }
        },
    }
    let v = match chain {
        Err(e) => {
            return Err(cat("db: ", e.as_str()));
        },
        Ok(v) => v,
    };
    let mut out: Vec<String> = Vec::new();
    let mut i: usize = 0;
    proof {
        assert(v@.take(0) =~= seq![]);
        assert(texts(out@) =~= seq![]);
    }
    while i < v.len()
        invariant
            i <= v.len(),
            listed_ids(v@.take(i as int)) == Ok::<Seq<Seq<char>>, Seq<char>>(texts(out@)),
            stored_chain(event_id@, *known, *chain) == listed_ids(v@),
        decreases v.len() - i,
    {
        proof {
            assert(v@.take(i + 1).drop_last() =~= v@.take(i as int));
            assert(v@.take(i + 1).last() == v@[i as int]);
        }
        match &v[i] {
            Err(e) => {
                let text = cat("db: ", e.as_str());
                proof {
                    lemma_first_fault(v@, i + 1);
                }
                return Err(text);
            },
            Ok(None) => {},
            Ok(Some(id)) => {
                let s = id.clone();
                proof {
                    lemma_texts_push(out@, s);
                }
                out.push(s);
            },
        }
        i += 1;
    }
    proof {
        assert(v@.take(i as int) =~= v@);
    }
    Ok(out)
}

/// A fault among the first entries is the fault of the whole list.
proof fn lemma_first_fault(v: Seq<Result<Option<String>, String>>, n: int)
    requires
        0 <= n <= v.len(),
        listed_ids(v.take(n)) is Err,
    ensures
        listed_ids(v) == listed_ids(v.take(n)),
    decreases v.len() - n,
{
    if n < v.len() {
        assert(v.take(n + 1).drop_last() =~= v.take(n));
        lemma_first_fault(v, n + 1);
    } else {
        assert(v.take(n) =~= v);
    }
}

/// The events that the store holds, by id.
pub type StoredEvents = spec_fn(Seq<char>) -> Option<JsonView>;

/// Whether a lookup answers from what the store holds.
pub open spec fn reads_from<L: Fn(&str) -> Option<Json>>(load: L, g: StoredEvents) -> bool {
    forall|s: &str, a: Option<Json>| #[trigger]
        load.ensures((s,), a) ==> g(s@) == (match a {
            Some(e) => Some(e@),
            None => None,
        })
}

/// The events of a list of ids that the store holds, in order.
pub open spec fn held(ids: Seq<Seq<char>>, g: StoredEvents) -> Seq<JsonView>
    decreases ids.len(),
{
    if ids.len() == 0 {
        seq![]
    } else {
        match g(ids.last()) {
            Some(e) => held(ids.drop_last(), g).push(e),
            None => held(ids.drop_last(), g),
        }
    }
}

/// The events of an auth chain; what the store does not hold is left out.
pub fn auth_chain_pdu_json<L: Fn(&str) -> Option<Json>>(
    ids: Result<Vec<String>, String>,
    load: L,
) -> (r: Result<Vec<Json>, String>)
    requires
        forall|s: &str| #[trigger] load.requires((s,)),
    ensures
        match ids {
            Err(e) => r matches Err(x) && x@ == e@,
            Ok(v) => r matches Ok(out) && forall|g: StoredEvents| #[trigger]
                reads_from(load, g) ==> values(out@) == held(texts(v@), g),
        },
{
    let v = match ids {
        Err(e) => {
            return Err(e);
        },
        Ok(v) => v,
    };
    let ghost t = texts(v@);
    let mut out: Vec<Json> = Vec::new();
    let mut i: usize = 0;
    proof {
        assert(t.take(0) =~= seq![]);
        assert(values(out@) =~= seq![]);
    }
    while i < v.len()
        invariant
            i <= v.len(),
            t == texts(v@),
            forall|s: &str| #[trigger] load.requires((s,)),
            forall|g: StoredEvents| #[trigger]
                reads_from(load, g) ==> values(out@) == held(t.take(i as int), g),
        decreases v.len() - i,
    {
        proof {
            assert(t.take(i + 1).drop_last() =~= t.take(i as int));
            assert(t.take(i + 1).last() == v@[i as int]@);
        }
        match load(v[i].as_str()) {
            Some(e) => {
                proof {
                    lemma_values_push(out@, e);
                }
                out.push(e);
            },
            None => {},
        }
        i += 1;
    }
    proof {
        assert(t.take(i as int) =~= t);
    }
    Ok(out)
}

/// The events of the union of the auth chains of `roots`; what the store does
/// not hold is left out.
pub fn auth_chain_union_pdu_json<F: Fn(&str) -> AuthLookup, L: Fn(&str) -> Option<Json>>(
    roots: &Vec<String>,
    auth_of: F,
    load: L,
) -> (r: Result<Vec<Json>, String>)
    requires
        forall|s: &str| #[trigger] auth_of.requires((s,)),
        forall|s: &str| #[trigger] load.requires((s,)),
        roots@.len() <= usize::MAX - AUTH_CHAIN_MAX,
    ensures
        match r {
            Ok(out) => exists|ids: Seq<Seq<char>>| #[trigger]
                is_union_read(auth_of, load, texts(roots@), ids, values(out@)),
            Err(e) => forall|g: AuthGraph| #[trigger]
                answers_from(auth_of, g) ==> failed_read(g, texts(roots@), e@),
        },
{
    match auth_chain_union_event_ids(roots, auth_of) {
        Err(e) => Err(e),
        Ok(v) => {
            let ghost ids = texts(v@);
            let r = auth_chain_pdu_json(Ok(v), load);
            proof {
                if r is Ok {
                    assert(is_union_read(auth_of, load, texts(roots@), ids, values(r->Ok_0@)));
                }
            }
            r
        },
    }
}

/// Whether some events are those of a list of ids, and the list is the union of
/// the auth chains of `roots`.
pub open spec fn is_union_read<F: Fn(&str) -> AuthLookup, L: Fn(&str) -> Option<Json>>(
    auth_of: F,
    load: L,
    roots: Seq<Seq<char>>,
    ids: Seq<Seq<char>>,
    events: Seq<JsonView>,
) -> bool {
    &&& forall|g: AuthGraph| #[trigger] answers_from(auth_of, g) ==> union_of(g, roots, ids)
    &&& forall|g: StoredEvents| #[trigger] reads_from(load, g) ==> events == held(ids, g)
}

/// Whether some events are those of a list of ids, and the list is the auth chain
/// of an event that lists `seeds`.
pub open spec fn is_chain_read<F: Fn(&str) -> AuthLookup, L: Fn(&str) -> Option<Json>>(
    auth_of: F,
    load: L,
    seeds: Seq<Seq<char>>,
    ids: Seq<Seq<char>>,
    events: Seq<JsonView>,
) -> bool {
    &&& forall|g: AuthGraph| #[trigger] answers_from(auth_of, g) ==> chain_of(g, seeds, ids)
    &&& forall|g: StoredEvents| #[trigger] reads_from(load, g) ==> events == held(ids, g)
}

/// The events of the auth chain of an event that lists `seeds`; what the store
/// does not hold is left out.
pub fn auth_chain_of_seeds_pdu_json<F: Fn(&str) -> AuthLookup, L: Fn(&str) -> Option<Json>>(
    seeds: &Vec<String>,
    auth_of: F,
    load: L,
) -> (r: Result<Vec<Json>, String>)
    requires
        forall|s: &str| #[trigger] auth_of.requires((s,)),
        forall|s: &str| #[trigger] load.requires((s,)),
        seeds@.len() <= usize::MAX - AUTH_CHAIN_MAX,
    ensures
        match r {
            Ok(out) => exists|ids: Seq<Seq<char>>| #[trigger]
                is_chain_read(auth_of, load, texts(seeds@), ids, values(out@)),
            Err(e) => forall|g: AuthGraph| #[trigger]
                answers_from(auth_of, g) ==> failed_read(g, texts(seeds@), e@),
        },
{
    match auth_chain_including_seeds(seeds, auth_of) {
        Err(e) => Err(e),
        Ok(v) => {
            let ghost ids = texts(v@);
            let r = auth_chain_pdu_json(Ok(v), load);
            proof {
                if r is Ok {
                    assert(is_chain_read(auth_of, load, texts(seeds@), ids, values(r->Ok_0@)));
                }
            }
            r
        },
    }
}

/// A list without its repeats holds each item of the list once, in the order of the
/// first occurrences.
pub proof fn law_distinct(v: Seq<Seq<char>>)
    ensures
        distinct(v).no_duplicates(),
        forall|x: Seq<char>| #[trigger] distinct(v).contains(x) <==> v.contains(x),
        v.no_duplicates() ==> distinct(v) == v,
        forall|n: int| 0 <= n <= v.len() ==> (#[trigger] distinct(v.take(n))).is_prefix_of(distinct(v)),
    decreases v.len(),
{
    if v.len() > 0 {
        let front = v.drop_last();
        let s = distinct(front);
        let r = distinct(v);
        law_distinct(front);
        assert(v =~= front.push(v.last()));
        assert forall|x: Seq<char>| #[trigger] r.contains(x) <==> v.contains(x) by {
            lemma_has_push(front, v.last(), x);
            lemma_has_push(s, v.last(), x);
            assert(s.contains(x) <==> front.contains(x));
        }
        if !s.contains(v.last()) {
            assert forall|i: int, j: int| 0 <= i < j < r.len() implies r[i] != r[j] by {
                if j == s.len() {
                    assert(s.contains(s[i]));
                }
            }
        }
        if v.no_duplicates() {
            assert(front.no_duplicates());
            if front.contains(v.last()) {
                let k = choose|k: int| 0 <= k < front.len() && front[k] == v.last();
                assert(v[k] == v[v.len() - 1]);
            }
            assert(r =~= v);
        }
        assert forall|n: int| 0 <= n <= v.len() implies (#[trigger] distinct(
            v.take(n),
        )).is_prefix_of(r) by {
            if n < v.len() {
                assert(v.take(n) =~= front.take(n));
                assert(distinct(front.take(n)).is_prefix_of(s));
            } else {
                assert(v.take(n) =~= v);
            }
        }
    } else {
        assert(v =~= seq![]);
    }
}

/// The events of a list that the store holds are all of them that it does, in
/// order.
pub proof fn law_held(ids: Seq<Seq<char>>, g: StoredEvents)
    ensures
        held(ids, g) == ids.filter_map(|id: Seq<char>| g(id)),
    decreases ids.len(),
{
    if ids.len() > 0 {
        law_held(ids.drop_last(), g);
        let s = held(ids.drop_last(), g);
        if let Some(e) = g(ids.last()) {
            assert(s.push(e) =~= s + seq![e]);
        }
    }
}

/// A chain is listed whole or not at all: if every entry could be read its ids are
/// all that there are, in order, and if one could not there is none.
pub proof fn law_listed_chain(v: Seq<Result<Option<String>, String>>)
    ensures
        listed_ids(v) is Err <==> exists|i: int| 0 <= i < v.len() && (#[trigger] v[i]) is Err,
        listed_ids(v) matches Ok(ids) ==> ids == v.filter_map(
            |r: Result<Option<String>, String>|
                match r {
                    Ok(Some(id)) => Some(id@),
                    _ => None,
                },
        ),
    decreases v.len(),
{
    if v.len() > 0 {
        let front = v.drop_last();
        law_listed_chain(front);
        if listed_ids(front) is Err {
            let i = choose|i: int| 0 <= i < front.len() && (#[trigger] front[i]) is Err;
            assert(v[i] == front[i]);
        } else {
            if v.last() is Err {
                assert(v[v.len() - 1] is Err);
            }
            if exists|i: int| 0 <= i < v.len() && (#[trigger] v[i]) is Err {
                let i = choose|i: int| 0 <= i < v.len() && (#[trigger] v[i]) is Err;
                if i < front.len() {
                    assert(front[i] == v[i]);
                }
            }
            if let Ok(Some(id)) = v.last() {
                let s = listed_ids(front)->Ok_0;
                assert(s.push(id@) =~= s + seq![id@]);
            }
        }
    }
}

/// What a chain is: it holds what it starts from and with each event all its auth
/// events, and nothing else.
pub proof fn law_chains(g: AuthGraph, from: Seq<Seq<char>>)
    ensures
        forall|x: Seq<char>| #[trigger] from.contains(x) ==> in_chain(g, from, x),
        forall|a: Seq<char>, v: Seq<Seq<char>>, b: Seq<char>|
            in_chain(g, from, a) && g(a) == Ok::<Option<Seq<Seq<char>>>, Seq<char>>(Some(v))
                && #[trigger] v.contains(b) && #[trigger] in_chain(g, from, a) ==> in_chain(
                g,
                from,
                b,
            ),
        forall|x: Seq<char>| #[trigger]
            in_chain(g, from, x) ==> from.contains(x) || exists|a: Seq<char>|
                (#[trigger] in_chain(g, from, a)) && (g(a) matches Ok(Some(v)) && v.contains(x)),
{
    assert forall|a: Seq<char>, v: Seq<Seq<char>>, b: Seq<char>|
        in_chain(g, from, a) && g(a) == Ok::<Option<Seq<Seq<char>>>, Seq<char>>(Some(v))
            && #[trigger] v.contains(b) && #[trigger] in_chain(g, from, a) implies in_chain(
        g,
        from,
        b,
    ) by {
        assert(edge(g, a, b));
        lemma_step(g, from, a, b);
    }
    assert forall|x: Seq<char>| #[trigger] in_chain(g, from, x) implies from.contains(x) || exists|
        a: Seq<char>,
    |
        (#[trigger] in_chain(g, from, a)) && (g(a) matches Ok(Some(v)) && v.contains(x)) by {
        if !from.contains(x) {
            let p = choose|p: Seq<Seq<char>>| ancestor_path(g, from, x, p);
            let k = p.len() - 2;
            let a = p[k];
            assert(edge(g, p[k], p[k + 1]));
            let q = p.drop_last();
            if q.len() == 1 {
                assert(from.contains(a));
            } else {
                assert forall|i: int| 0 <= i < q.len() - 1 implies edge(
                    g,
                    #[trigger] q[i],
                    q[i + 1],
                ) by {
                    assert(edge(g, p[i], p[i + 1]));
                }
                assert(ancestor_path(g, from, a, q));
            }
            assert(in_chain(g, from, a));
        }
    }
}

} // verus!
