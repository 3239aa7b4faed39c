//! Which local users learn of a change to another user.

use vstd::prelude::*;
use vstd::string::*;

use crate::pdu::belongs_to;
use crate::pdu::id_belongs_to;
use crate::text::lemma_has_push;

verus! {

/// A member of a room: the number of the user and, if it could be read, the
/// user's id.
pub struct Member {
    pub nid: u64,
    pub user_id: Option<String>,
}

/// Whether a member is a user of a server.
pub open spec fn is_local(m: Member, server: Seq<char>) -> bool {
    match m.user_id {
        Some(id) => belongs_to(id@, server),
        None => false,
    }
}

/// Whether a member is a user of a server.
pub fn local(m: &Member, server: &str) -> (r: bool)
    ensures
        r == is_local(*m, server@),
{
    match &m.user_id {
        Some(id) => id_belongs_to(id.as_str(), server),
        None => false,
    }
}

/// The users of a server among some members, in order, without one of them.
pub open spec fn locals_among(v: Seq<Member>, server: Seq<char>, except: Option<u64>) -> Seq<u64>
    decreases v.len(),
{
    if v.len() == 0 {
        seq![]
    } else if is_local(v.last(), server) && except != Some(v.last().nid) {
        locals_among(v.drop_last(), server, except).push(v.last().nid)
    } else {
        locals_among(v.drop_last(), server, except)
    }
}

/// The users of a server among some members, in order, without one of them.
pub fn local_observers(members: &Vec<Member>, server: &str, except: Option<u64>) -> (r: Vec<u64>)
    ensures
        r@ == locals_among(members@, server@, except),
{
    let mut out: Vec<u64> = Vec::new();
    let mut i: usize = 0;
    while i < members.len()
        invariant
            i <= members.len(),
            out@ =~= locals_among(members@.take(i as int), server@, except),
        decreases members.len() - i,
    {
        proof {
            assert(members@.take(i + 1).drop_last() =~= members@.take(i as int));
            assert(members@.take(i + 1).last() == members@[i as int]);
        }
        let m = &members[i];
        let excluded = match except {
            Some(n) => n == m.nid,
            None => false,
        };
        if local(m, server) && !excluded {
            out.push(m.nid);
        }
        i += 1;
    }
    proof {
        assert(members@.take(i as int) =~= members@);
    }
    out
}

/// Whether some room has a user of a server with a number.
pub open spec fn observes(rooms: Seq<Vec<Member>>, server: Seq<char>, nid: u64) -> bool {
    exists|i: int, j: int|
        0 <= i < rooms.len() && 0 <= j < rooms[i]@.len() && is_local(
            #[trigger] rooms[i]@[j],
            server,
        ) && rooms[i]@[j].nid == nid
}

pub fn holds_nid(v: &Vec<u64>, n: u64) -> (r: bool)
    ensures
        r == v@.contains(n),
{
    let mut i: usize = 0;
    while i < v.len()
        invariant
            i <= v.len(),
            forall|j: int| 0 <= j < i ==> v@[j] != n,
        decreases v.len() - i,
    {
        if v[i] == n {
            return true;
        }
        i += 1;
    }
    false
}

/// The users of a server that share one of some rooms, each once.
pub fn observers_in(rooms: &Vec<Vec<Member>>, server: &str) -> (r: Vec<u64>)
    ensures
        r@.no_duplicates(),
        forall|n: u64| #[trigger] r@.contains(n) <==> observes(rooms@, server@, n),
{
    let mut out: Vec<u64> = Vec::new();
    let mut i: usize = 0;
    while i < rooms.len()
        invariant
            i <= rooms.len(),
            out@.no_duplicates(),
            forall|n: u64| #[trigger]
                out@.contains(n) <==> observes(rooms@.take(i as int), server@, n),
        decreases rooms.len() - i,
    {
        let room = &rooms[i];
        let ghost before = out@;
        let mut j: usize = 0;
        while j < room.len()
            invariant
                i < rooms.len(),
                j <= room.len(),
                room == &rooms@[i as int],
                out@.no_duplicates(),
                forall|n: u64| #[trigger]
                    out@.contains(n) <==> before.contains(n) || in_first(room@, j as int, server@, n),
            decreases room.len() - j,
        {
            let m = &room[j];
            let ghost prior = out@;
            if local(m, server) && !holds_nid(&out, m.nid) {
                out.push(m.nid);
            }
            proof {
                assert forall|n: u64| #[trigger] out@.contains(n) <==> before.contains(n) || in_first(
                    room@,
                    j + 1,
                    server@,
                    n,
                ) by {
                    assert(prior.contains(n) <==> before.contains(n) || in_first(
                        room@,
                        j as int,
                        server@,
                        n,
                    ));
                    lemma_has_push(prior, m.nid, n);
                    lemma_in_first(room@, j as int, server@, n);
                }
            }
            j += 1;
        }
        proof {
            assert forall|n: u64| #[trigger] out@.contains(n) <==> observes(
                rooms@.take(i + 1),
                server@,
                n,
            ) by {
                lemma_observes(rooms@, i as int, server@, n);
                assert(before.contains(n) <==> observes(rooms@.take(i as int), server@, n));
            }
        }
        i += 1;
    }
    proof {
        assert(rooms@.take(i as int) =~= rooms@);
    }
    out
}

spec fn in_first(v: Seq<Member>, k: int, server: Seq<char>, n: u64) -> bool {
    exists|j: int| 0 <= j < k && is_local(#[trigger] v[j], server) && v[j].nid == n
}

proof fn lemma_in_first(v: Seq<Member>, k: int, server: Seq<char>, n: u64)
    requires
        0 <= k < v.len(),
    ensures
        in_first(v, k + 1, server, n) <==> in_first(v, k, server, n) || (is_local(v[k], server)
            && v[k].nid == n),
{
    if in_first(v, k + 1, server, n) {
        let j = choose|j: int| 0 <= j < k + 1 && is_local(#[trigger] v[j], server) && v[j].nid == n;
        if j < k {
            assert(is_local(v[j], server));
        }
    }
}

proof fn lemma_observes(rooms: Seq<Vec<Member>>, i: int, server: Seq<char>, n: u64)
    requires
        0 <= i < rooms.len(),
    ensures
        observes(rooms.take(i + 1), server, n) <==> observes(rooms.take(i), server, n) || in_first(
            rooms[i]@,
            rooms[i]@.len() as int,
            server,
            n,
        ),
{
    let more = rooms.take(i + 1);
    let less = rooms.take(i);
    if observes(more, server, n) {
        let (a, b) = choose|a: int, b: int|
            0 <= a < more.len() && 0 <= b < more[a]@.len() && is_local(
                #[trigger] more[a]@[b],
                server,
            ) && more[a]@[b].nid == n;
        if a < i {
            assert(is_local(less[a]@[b], server));
        } else {
            assert(is_local(rooms[i]@[b], server));
        }
    }
    if observes(less, server, n) {
        let (a, b) = choose|a: int, b: int|
            0 <= a < less.len() && 0 <= b < less[a]@.len() && is_local(
                #[trigger] less[a]@[b],
                server,
            ) && less[a]@[b].nid == n;
        assert(is_local(more[a]@[b], server));
    }
    if in_first(rooms[i]@, rooms[i]@.len() as int, server, n) {
        let b = choose|b: int|
            0 <= b < rooms[i]@.len() && is_local(#[trigger] rooms[i]@[b], server)
                && rooms[i]@[b].nid == n;
        assert(is_local(more[i]@[b], server));
    }
}

/// The local users that are told of a member's doings are all members of the
/// server but that one, in order.
pub proof fn law_locals_among(v: Seq<Member>, server: Seq<char>, except: Option<u64>)
    ensures
        locals_among(v, server, except) == v.filter_map(
            |m: Member|
                match m.user_id {
                    Some(id) => if belongs_to(id@, server) && except != Some(m.nid) {
                        Some(m.nid)
                    } else {
                        None
                    },
                    None => None,
                },
        ),
        forall|n: u64| #[trigger]
            locals_among(v, server, except).contains(n) <==> except != Some(n) && exists|i: int|
                0 <= i < v.len() && (#[trigger] v[i]).nid == n && (v[i].user_id matches Some(id)
                    && belongs_to(id@, server)),
    decreases v.len(),
{
    if v.len() > 0 {
        let front = v.drop_last();
        let r = locals_among(v, server, except);
        let s = locals_among(front, server, except);
        let last = v.len() - 1;
        law_locals_among(front, server, except);
        assert(s.push(v.last().nid) =~= s + seq![v.last().nid]);
        assert forall|n: u64| #[trigger] r.contains(n) <==> except != Some(n) && exists|i: int|
            0 <= i < v.len() && (#[trigger] v[i]).nid == n && (v[i].user_id matches Some(id)
                && belongs_to(id@, server)) by {
            if s.contains(n) {
                let k = choose|k: int| 0 <= k < s.len() && s[k] == n;
                assert(r[k] == n);
                let i = choose|i: int|
                    0 <= i < front.len() && (#[trigger] front[i]).nid == n && (
                    front[i].user_id matches Some(id) && belongs_to(id@, server));
                assert(v[i] == front[i]);
            }
            if r.contains(n) && !s.contains(n) {
                let k = choose|k: int| 0 <= k < r.len() && r[k] == n;
                if k < s.len() {
                    assert(s[k] == n);
                }
                assert(v[last].nid == n);
            }
            if except != Some(n) && (exists|i: int|
                0 <= i < v.len() && (#[trigger] v[i]).nid == n && (v[i].user_id matches Some(id)
                    && belongs_to(id@, server))) {
                let i = choose|i: int|
                    0 <= i < v.len() && (#[trigger] v[i]).nid == n && (v[i].user_id matches Some(id)
                        && belongs_to(id@, server));
                if i < front.len() {
                    assert(front[i] == v[i]);
                    assert(s.contains(n));
                } else {
                    assert(r[s.len() as int] == n);
                }
            }
        }
    }
}

} // verus!
