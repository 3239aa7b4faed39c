//! IP address literals: their grammar, and which addresses are public.

use vstd::prelude::*;
use vstd::string::*;

use crate::text::law_decimal;
use crate::text::law_pieces;
use crate::text::law_pieces_apart;
use crate::text::all_digits;
use crate::text::cat;
use crate::text::cat3;
use crate::text::chars_of;
use crate::text::decimal;
use crate::text::digits_value;
use crate::text::is_digit;
use crate::text::number_text;
use crate::text::parse_number;
use crate::text::pieces;
use crate::text::split;
use crate::text::texts;

verus! {

/// An IP address: four octets, or eight groups of sixteen bits.
#[derive(Clone, Copy, PartialEq, Eq, Structural, Debug)]
pub enum IpAddress {
    V4(u8, u8, u8, u8),
    V6(u16, u16, u16, u16, u16, u16, u16, u16),
}

/// The value of one dotted-decimal octet: at most three digits, no leading
/// zero, at most 255.
pub open spec fn octet_of(t: Seq<char>) -> Option<u8> {
    if 1 <= t.len() <= 3 && all_digits(t) && (t.len() == 1 || t[0] != '0') && digits_value(t)
        <= 255 {
        Some(digits_value(t) as u8)
    } else {
        None
    }
}

/// The octets of an IPv4 literal.
pub open spec fn ipv4_of(s: Seq<char>) -> Option<(u8, u8, u8, u8)> {
    let p = pieces(s, '.');
    if p.len() == 4 {
        match (octet_of(p[0]), octet_of(p[1]), octet_of(p[2]), octet_of(p[3])) {
            (Some(a), Some(b), Some(c), Some(d)) => Some((a, b, c, d)),
            _ => None,
        }
    } else {
        None
    }
}

pub open spec fn is_hex(c: char) -> bool {
    ('0' <= c <= '9') || ('a' <= c <= 'f') || ('A' <= c <= 'F')
}

/// The value of a hexadecimal digit.
pub open spec fn hex_value(c: char) -> nat {
    if '0' <= c <= '9' {
        (c as u32 - '0' as u32) as nat
    } else if 'a' <= c <= 'f' {
        (c as u32 - 'a' as u32 + 10) as nat
    } else {
        (c as u32 - 'A' as u32 + 10) as nat
    }
}

/// The value of a run of hexadecimal digits.
pub open spec fn hex_number(t: Seq<char>) -> nat
    decreases t.len(),
{
    if t.len() == 0 {
        0
    } else {
        hex_number(t.drop_last()) * 16 + hex_value(t.last())
    }
}

/// The value of one group of an IPv6 literal: one to four hexadecimal digits.
pub open spec fn group_of(t: Seq<char>) -> Option<u16> {
    if 1 <= t.len() <= 4 && forall|i: int| 0 <= i < t.len() ==> is_hex(#[trigger] t[i]) {
        Some(hex_number(t) as u16)
    } else {
        None
    }
}

/// The values of a list of groups; with `v4_tail`, the last one may be an
/// IPv4 literal, which stands for two groups.
pub open spec fn groups_of(p: Seq<Seq<char>>, v4_tail: bool) -> Option<Seq<u16>>
    decreases p.len(),
{
    if p.len() == 0 {
        Some(seq![])
    } else {
        match groups_of(p.drop_last(), false) {
            None => None,
            Some(head) => match group_of(p.last()) {
                Some(g) => Some(head.push(g)),
                None => match ipv4_of(p.last()) {
                    Some((a, b, c, d)) => if v4_tail {
                        Some(
                            head.push((a as int * 256 + b as int) as u16).push(
                                (c as int * 256 + d as int) as u16,
                            ),
                        )
                    } else {
                        None
                    },
                    None => None,
                },
            },
        }
    }
}

/// The groups that a colon-separated text spells; the empty text spells none.
pub open spec fn group_run(s: Seq<char>, v4_tail: bool) -> Option<Seq<u16>> {
    if s.len() == 0 {
        Some(seq![])
    } else {
        groups_of(pieces(s, ':'), v4_tail)
    }
}

/// The index of the first `::`, if there is one.
pub open spec fn double_colon(s: Seq<char>) -> Option<int> {
    if exists|i: int| is_double_colon(s, i) {
        Some(
            choose|i: int| is_double_colon(s, i) && forall|j: int| j < i ==> !is_double_colon(s, j),
        )
    } else {
        None
    }
}

pub open spec fn is_double_colon(s: Seq<char>, i: int) -> bool {
    0 <= i && i + 1 < s.len() && s[i] == ':' && s[i + 1] == ':'
}

/// The eight groups of an IPv6 literal: all eight spelled out, or the first
/// `::` standing for one or more groups of zero.
pub open spec fn ipv6_of(s: Seq<char>) -> Option<Seq<u16>> {
    match double_colon(s) {
        None => match group_run(s, true) {
            Some(g) => if g.len() == 8 {
                Some(g)
            } else {
                None
            },
            None => None,
        },
        Some(i) => match (group_run(s.take(i), false), group_run(s.skip(i + 2), true)) {
            (Some(l), Some(r)) => if l.len() + r.len() <= 7 {
                Some(l + Seq::new((8 - l.len() - r.len()) as nat, |k: int| 0u16) + r)
            } else {
                None
            },
            _ => None,
        },
    }
}

pub open spec fn v6_address(g: Seq<u16>) -> IpAddress {
    IpAddress::V6(g[0], g[1], g[2], g[3], g[4], g[5], g[6], g[7])
}

/// The address that an IPv4 or IPv6 literal names.
pub open spec fn address_of(s: Seq<char>) -> Option<IpAddress> {
    match ipv4_of(s) {
        Some((a, b, c, d)) => Some(IpAddress::V4(a, b, c, d)),
        None => match ipv6_of(s) {
            Some(g) => Some(v6_address(g)),
            None => None,
        },
    }
}

fn parse_octet(t: &str) -> (r: Option<u8>)
    ensures
        r == octet_of(t@),
{
    let chars = chars_of(t);
    let n: usize = chars.len();
    if n == 0 || n > 3 {
        return None;
    }
    if chars[0] == '+' {
        proof {
            assert(!is_digit(t@[0]));
        }
        return None;
    }
    if n > 1 && chars[0] == '0' {
        return None;
    }
    match parse_number(t, 255) {
        Some(v) => Some(v as u8),
        None => None,
    }
}

/// Reads an IPv4 literal.
pub fn parse_ipv4(s: &str) -> (r: Option<(u8, u8, u8, u8)>)
    ensures
        r == ipv4_of(s@),
{
    let p = split(s, '.');
    proof {
        assert(texts(p@).len() == p@.len());
    }
    if p.len() != 4 {
        return None;
    }
    proof {
        assert(texts(p@)[0] == p@[0]@);
        assert(texts(p@)[1] == p@[1]@);
        assert(texts(p@)[2] == p@[2]@);
        assert(texts(p@)[3] == p@[3]@);
    }
    match (
        parse_octet(p[0].as_str()),
        parse_octet(p[1].as_str()),
        parse_octet(p[2].as_str()),
        parse_octet(p[3].as_str()),
    ) {
        (Some(a), Some(b), Some(c), Some(d)) => Some((a, b, c, d)),
        _ => None,
    }
}

/// The value of a hexadecimal digit, `None` for another character.
pub fn hex_digit(c: char) -> (r: Option<u8>)
    ensures
        match r {
            Some(v) => is_hex(c) && v == hex_value(c) && v < 16,
            None => !is_hex(c),
        },
{
    if '0' <= c && c <= '9' {
        Some((c as u32 - '0' as u32) as u8)
    } else if 'a' <= c && c <= 'f' {
        Some((c as u32 - 'a' as u32 + 10) as u8)
    } else if 'A' <= c && c <= 'F' {
        Some((c as u32 - 'A' as u32 + 10) as u8)
    } else {
        None
    }
}

fn parse_group(t: &str) -> (r: Option<u16>)
    ensures
        r == group_of(t@),
{
    let chars = chars_of(t);
    let n: usize = chars.len();
    if n == 0 || n > 4 {
        return None;
    }
    let mut value: u32 = 0;
    let ghost mut bound: nat = 1;
    let mut i: usize = 0;
    while i < n
        invariant
            i <= n <= 4,
            n == chars.len(),
            chars@ == t@,
            forall|j: int| 0 <= j < i ==> is_hex(#[trigger] t@[j]),
            value == hex_number(t@.take(i as int)),
            value < bound,
            bound == (if i == 0 { 1nat } else if i == 1 { 16 } else if i == 2 { 256 } else if i == 3 { 4096 } else { 65536 }),
        decreases n - i,
    {
        match hex_digit(chars[i]) {
            Some(v) => {
                proof {
                    assert(t@.take(i + 1).drop_last() =~= t@.take(i as int));
                    bound = bound * 16;
                }
                value = value * 16 + v as u32;
            },
            None => {
                return None;
            },
        }
        i += 1;
    }
    proof {
        assert(t@.take(n as int) =~= t@);
    }
    Some(value as u16)
}

proof fn lemma_groups_prefix(p: Seq<Seq<char>>, k: int, v4_tail: bool)
    requires
        0 <= k < p.len(),
        groups_of(p, v4_tail) is Some,
    ensures
        groups_of(p.take(k), false) is Some,
    decreases p.len(),
{
    if k == p.len() - 1 {
        assert(p.take(k) =~= p.drop_last());
    } else {
        lemma_groups_prefix(p.drop_last(), k, false);
        assert(p.drop_last().take(k) =~= p.take(k));
    }
}

fn parse_groups(p: &Vec<String>, v4_tail: bool) -> (r: Option<Vec<u16>>)
    ensures
        match r {
            Some(g) => groups_of(texts(p@), v4_tail) == Some(g@),
            None => groups_of(texts(p@), v4_tail) is None,
        },
{
    let n: usize = p.len();
    let mut out: Vec<u16> = Vec::new();
    let mut i: usize = 0;
    let ghost t = texts(p@);
    proof {
        assert(t.take(0) =~= seq![]);
    }
    while i < n
        invariant
            i <= n,
            n == p.len(),
            t == texts(p@),
            groups_of(t.take(i as int), i == n && v4_tail) == Some(out@),
        decreases n - i,
    {
        let last: bool = i + 1 == n;
        proof {
            assert(t.take(i + 1).drop_last() =~= t.take(i as int));
            assert(t.take(i + 1).last() == p@[i as int]@);
        }
        match parse_group(p[i].as_str()) {
            Some(g) => {
                out.push(g);
            },
            None => match parse_ipv4(p[i].as_str()) {
                Some((a, b, c, d)) => {
                    if !(last && v4_tail) {
                        proof {
                            if groups_of(t, v4_tail) is Some {
                                if last {
                                    assert(t.take(n as int) =~= t);
                                } else {
                                    lemma_groups_prefix(t, i + 1, v4_tail);
                                }
                            }
                        }
                        return None;
                    }
                    out.push(a as u16 * 256 + b as u16);
                    out.push(c as u16 * 256 + d as u16);
                },
                None => {
                    proof {
                        if groups_of(t, v4_tail) is Some {
                            if last {
                                assert(t.take(n as int) =~= t);
                            } else {
                                lemma_groups_prefix(t, i + 1, v4_tail);
                            }
                        }
                    }
                    return None;
                },
            },
        }
        i += 1;
    }
    proof {
        assert(t.take(n as int) =~= t);
    }
    Some(out)
}

fn parse_group_run(s: &str, v4_tail: bool) -> (r: Option<Vec<u16>>)
    ensures
        match r {
            Some(g) => group_run(s@, v4_tail) == Some(g@),
            None => group_run(s@, v4_tail) is None,
        },
{
    if s.is_empty() {
        let out: Vec<u16> = Vec::new();
        proof {
            assert(out@ =~= seq![]);
        }
        return Some(out);
    }
    let p = split(s, ':');
    parse_groups(&p, v4_tail)
}

fn find_double_colon(s: &str) -> (r: Option<usize>)
    ensures
        match r {
            Some(i) => double_colon(s@) == Some(i as int) && i + 2 <= s@.len(),
            None => double_colon(s@) is None,
        },
{
    let chars = chars_of(s);
    let n: usize = chars.len();
    let mut i: usize = 0;
    while i < n && n - i >= 2
        invariant
            i <= n,
            n == chars.len(),
            chars@ == s@,
            forall|j: int| j < i ==> !is_double_colon(s@, j),
        decreases n - i,
    {
        if chars[i] == ':' && chars[i + 1] == ':' {
            proof {
                assert(is_double_colon(s@, i as int));
                let k = choose|k: int|
                    is_double_colon(s@, k) && forall|j: int| j < k ==> !is_double_colon(s@, j);
                assert(k == i);
            }
            return Some(i);
        }
        i += 1;
    }
    None
}

/// Reads an IPv6 literal.
pub fn parse_ipv6(s: &str) -> (r: Option<IpAddress>)
    ensures
        match r {
            Some(a) => ipv6_of(s@) is Some && a == v6_address(ipv6_of(s@)->0),
            None => ipv6_of(s@) is None,
        },
{
    match find_double_colon(s) {
        None => match parse_group_run(s, true) {
            Some(g) => {
                if g.len() == 8 {
                    Some(IpAddress::V6(g[0], g[1], g[2], g[3], g[4], g[5], g[6], g[7]))
                } else {
                    None
                }
            },
            None => None,
        },
        Some(i) => {
            let n: usize = chars_of(s).len();
            let left = s.substring_char(0, i);
            let right = s.substring_char(i + 2, n);
            proof {
                assert(left@ =~= s@.take(i as int));
                assert(right@ =~= s@.skip(i + 2));
            }
            match (parse_group_run(left, false), parse_group_run(right, true)) {
                (Some(l), Some(r)) => {
                    if l.len() > 7 || r.len() > 7 - l.len() {
                        return None;
                    }
                    let ghost zeros = Seq::new((8 - l@.len() - r@.len()) as nat, |k: int| 0u16);
                    let ghost want = l@ + zeros + r@;
                    let mut g: Vec<u16> = Vec::new();
                    let mut k: usize = 0;
                    while k < 8
                        invariant
                            k <= 8,
                            l.len() + r.len() <= 7,
                            g@ =~= want.take(k as int),
                            zeros == Seq::new((8 - l@.len() - r@.len()) as nat, |k: int| 0u16),
                            want == l@ + zeros + r@,
                        decreases 8 - k,
                    {
                        let x: u16 = if k < l.len() {
                            l[k]
                        } else if k < 8 - r.len() {
                            0
                        } else {
                            r[k - (8 - r.len())]
                        };
                        proof {
                            assert(want[k as int] == x);
                            assert(want.take(k + 1) =~= want.take(k as int).push(x));
                        }
                        g.push(x);
                        k += 1;
                    }
                    proof {
                        assert(want.take(8) =~= want);
                    }
                    Some(IpAddress::V6(g[0], g[1], g[2], g[3], g[4], g[5], g[6], g[7]))
                },
                _ => None,
            }
        },
    }
}

/// Reads an IPv4 or IPv6 literal.
pub fn parse_ip(s: &str) -> (r: Option<IpAddress>)
    ensures
        r == address_of(s@),
{
    match parse_ipv4(s) {
        Some((a, b, c, d)) => Some(IpAddress::V4(a, b, c, d)),
        None => parse_ipv6(s),
    }
}

/// Whether an IPv4 address is not to be dialled: it names this host or this
/// network, a private or shared network, a link, a group, everyone, or is set
/// aside for documentation or benchmarks.
pub open spec fn blocked_v4(a: u8, b: u8, c: u8, d: u8) -> bool {
    ||| a == 0
    ||| a == 127
    ||| a == 10
    ||| a == 172 && 16 <= b <= 31
    ||| a == 192 && b == 168
    ||| a == 169 && b == 254
    ||| a == 255 && b == 255 && c == 255 && d == 255
    ||| 224 <= a <= 239
    ||| a == 192 && b == 0 && c == 2
    ||| a == 198 && b == 51 && c == 100
    ||| a == 203 && b == 0 && c == 113
    ||| a == 100 && 64 <= b <= 127
    ||| a == 198 && (b == 18 || b == 19)
}

/// The upper half of a group of an IPv6 address.
pub open spec fn high_byte(g: u16) -> u8 {
    (g as int / 256) as u8
}

/// The lower half of a group of an IPv6 address.
pub open spec fn low_byte(g: u16) -> u8 {
    (g as int % 256) as u8
}

/// Whether an address is blocked when it is written as the last two groups of
/// an IPv6 address.
pub open spec fn blocked_embedded(g: u16, h: u16) -> bool {
    blocked_v4(high_byte(g), low_byte(g), high_byte(h), low_byte(h))
}

/// Whether an address is not to be dialled. An IPv4 address that is wrapped in
/// an IPv6 address is judged as itself.
pub open spec fn blocked(ip: IpAddress) -> bool {
    match ip {
        IpAddress::V4(a, b, c, d) => blocked_v4(a, b, c, d),
        IpAddress::V6(s0, s1, s2, s3, s4, s5, s6, s7) => {
            let top = s0 == 0 && s1 == 0 && s2 == 0 && s3 == 0 && s4 == 0;
            if top && s5 == 0xffff {
                blocked_embedded(s6, s7)
            } else {
                ||| top && s5 == 0 && (s6 == 0 && s7 <= 1 || blocked_embedded(s6, s7))
                ||| 0xff00 <= s0
                ||| 0xfc00 <= s0 <= 0xfdff
                ||| 0xfe80 <= s0 <= 0xfebf
            }
        },
    }
}

/// Whether an address names the host that uses it.
pub open spec fn loopback(ip: IpAddress) -> bool {
    match ip {
        IpAddress::V4(a, b, c, d) => a == 127,
        IpAddress::V6(s0, s1, s2, s3, s4, s5, s6, s7) => s0 == 0 && s1 == 0 && s2 == 0 && s3 == 0
            && s4 == 0 && s5 == 0 && s6 == 0 && s7 == 1,
    }
}

/// Whether an IPv4 address is not to be dialled.
pub fn is_blocked_v4(a: u8, b: u8, c: u8, d: u8) -> (r: bool)
    ensures
        r == blocked_v4(a, b, c, d),
{
    a == 0 || a == 127 || a == 10 || (a == 172 && 16 <= b && b <= 31) || (a == 192 && b == 168) || (
    a == 169 && b == 254) || (a == 255 && b == 255 && c == 255 && d == 255) || (224 <= a && a
        <= 239) || (a == 192 && b == 0 && c == 2) || (a == 198 && b == 51 && c == 100) || (a == 203
        && b == 0 && c == 113) || (a == 100 && 64 <= b && b <= 127) || (a == 198 && (b == 18 || b
        == 19))
}

fn embedded_blocked(g: u16, h: u16) -> (r: bool)
    ensures
        r == blocked_embedded(g, h),
{
    is_blocked_v4((g / 256) as u8, (g % 256) as u8, (h / 256) as u8, (h % 256) as u8)
}

/// Whether an address is not to be dialled.
pub fn is_blocked_ip(ip: IpAddress) -> (r: bool)
    ensures
        r == blocked(ip),
{
    match ip {
        IpAddress::V4(a, b, c, d) => is_blocked_v4(a, b, c, d),
        IpAddress::V6(s0, s1, s2, s3, s4, s5, s6, s7) => {
            let top = s0 == 0 && s1 == 0 && s2 == 0 && s3 == 0 && s4 == 0;
            if top && s5 == 0xffff {
                return embedded_blocked(s6, s7);
            }
            if top && s5 == 0 && ((s6 == 0 && s7 <= 1) || embedded_blocked(s6, s7)) {
                return true;
            }
            0xff00 <= s0 || (0xfc00 <= s0 && s0 <= 0xfdff) || (0xfe80 <= s0 && s0 <= 0xfebf)
        },
    }
}

/// Whether an address names the host that uses it.
pub fn is_loopback(ip: IpAddress) -> (r: bool)
    ensures
        r == loopback(ip),
{
    match ip {
        IpAddress::V4(a, _, _, _) => a == 127,
        IpAddress::V6(s0, s1, s2, s3, s4, s5, s6, s7) => s0 == 0 && s1 == 0 && s2 == 0 && s3 == 0
            && s4 == 0 && s5 == 0 && s6 == 0 && s7 == 1,
    }
}

/// Every loopback address is blocked: only an exception lets one through.
pub proof fn law_loopback_blocked(ip: IpAddress)
    ensures
        loopback(ip) ==> blocked(ip),
{
}

/// Wrapping an IPv4 address in IPv6, mapped or compatible, does not unblock it.
pub proof fn law_wrapping_keeps_block(a: u8, b: u8, c: u8, d: u8)
    requires
        blocked_v4(a, b, c, d),
    ensures
        blocked(
            IpAddress::V6(
                0,
                0,
                0,
                0,
                0,
                0xffff,
                (a as int * 256 + b as int) as u16,
                (c as int * 256 + d as int) as u16,
            ),
        ),
        blocked(
            IpAddress::V6(
                0,
                0,
                0,
                0,
                0,
                0,
                (a as int * 256 + b as int) as u16,
                (c as int * 256 + d as int) as u16,
            ),
        ),
{
    assert((a as int * 256 + b as int) / 256 == a && (a as int * 256 + b as int) % 256 == b);
    assert((c as int * 256 + d as int) / 256 == c && (c as int * 256 + d as int) % 256 == d);
}

/// The digit of a hexadecimal number.
pub open spec fn hex_char(d: nat) -> char {
    if d < 10 {
        ((d as u8 + '0' as u8) as u8) as char
    } else {
        ((d as u8 - 10 + 'a' as u8) as u8) as char
    }
}

/// The hexadecimal digits of a number, without leading zeros.
pub open spec fn hex_text(n: nat) -> Seq<char>
    decreases n,
{
    if n < 16 {
        seq![hex_char(n)]
    } else {
        hex_text(n / 16).push(hex_char(n % 16))
    }
}

/// Some groups with colons between them.
pub open spec fn groups_text(g: Seq<u16>) -> Seq<char>
    decreases g.len(),
{
    if g.len() == 0 {
        seq![]
    } else if g.len() == 1 {
        hex_text(g[0] as nat)
    } else {
        groups_text(g.drop_last()) + ":"@ + hex_text(g.last() as nat)
    }
}

/// The length of the run of zeros that starts at `i`.
pub open spec fn zero_run(g: Seq<u16>, i: int) -> int
    decreases g.len() - i,
{
    if 0 <= i < g.len() && g[i] == 0 {
        1 + zero_run(g, i + 1)
    } else {
        0
    }
}

/// Whether `i` is where the longest run of zeros starts, the first such place.
pub open spec fn is_longest_run(g: Seq<u16>, i: int) -> bool {
    &&& 0 <= i < g.len()
    &&& forall|j: int| 0 <= j < g.len() ==> #[trigger] zero_run(g, j) <= zero_run(g, i)
    &&& forall|j: int| 0 <= j < i ==> #[trigger] zero_run(g, j) < zero_run(g, i)
}

/// An IPv4 address in dotted decimals.
pub open spec fn v4_text(a: u8, b: u8, c: u8, d: u8) -> Seq<char> {
    decimal(a as nat) + "."@ + decimal(b as nat) + "."@ + decimal(c as nat) + "."@ + decimal(
        d as nat,
    )
}

/// Whether a text is how an address is written: dotted decimals; or groups of
/// hexadecimal digits, with the first longest run of two or more zeros written
/// as `::`; a mapped IPv4 address keeps its dotted form.
pub open spec fn is_ip_text(ip: IpAddress, t: Seq<char>) -> bool {
    match ip {
        IpAddress::V4(a, b, c, d) => t == v4_text(a, b, c, d),
        IpAddress::V6(s0, s1, s2, s3, s4, s5, s6, s7) => {
            let g = seq![s0, s1, s2, s3, s4, s5, s6, s7];
            if s0 == 0 && s1 == 0 && s2 == 0 && s3 == 0 && s4 == 0 && s5 == 0xffff {
                t == "::ffff:"@ + v4_text(
                    high_byte(s6),
                    low_byte(s6),
                    high_byte(s7),
                    low_byte(s7),
                )
            } else {
                exists|i: int|
                    #[trigger] is_longest_run(g, i) && t == (if zero_run(g, i) > 1 {
                        groups_text(g.take(i)) + "::"@ + groups_text(g.skip(i + zero_run(g, i)))
                    } else {
                        groups_text(g)
                    })
            }
        },
    }
}

fn write_v4(a: u8, b: u8, c: u8, d: u8) -> (r: String)
    ensures
        r@ == v4_text(a, b, c, d),
{
    let mut out = number_text(a as u64);
    out.append(".");
    out.append(number_text(b as u64).as_str());
    out.append(".");
    out.append(number_text(c as u64).as_str());
    out.append(".");
    out.append(number_text(d as u64).as_str());
    out
}

fn write_hex(n: u16) -> (r: String)
    ensures
        r@ == hex_text(n as nat),
    decreases n,
{
    let d: u8 = (n % 16) as u8;
    let c = if d < 10 {
        (d + 48u8) as char
    } else {
        (d - 10 + 97u8) as char
    };
    if n < 16 {
        let mut out = String::new();
        out.push(c);
        proof {
            assert(out@ =~= hex_text(n as nat));
        }
        out
    } else {
        let mut out = write_hex(n / 16);
        out.push(c);
        out
    }
}

fn write_groups(g: &Vec<u16>, from: usize, to: usize) -> (r: String)
    requires
        from <= to <= g.len(),
    ensures
        r@ == groups_text(g@.subrange(from as int, to as int)),
{
    let mut out = String::new();
    let mut i: usize = from;
    while i < to
        invariant
            from <= i <= to <= g.len(),
            out@ =~= groups_text(g@.subrange(from as int, i as int)),
        decreases to - i,
    {
        let ghost next = g@.subrange(from as int, i + 1);
        proof {
            assert(next.drop_last() =~= g@.subrange(from as int, i as int));
            assert(next.last() == g@[i as int]);
        }
        let h = write_hex(g[i]);
        if i > from {
            out.append(":");
            out.append(h.as_str());
        } else {
            out = h;
        }
        i += 1;
    }
    out
}

fn run_of_zeros(g: &Vec<u16>, from: usize) -> (r: usize)
    requires
        from <= g.len(),
    ensures
        r as int == zero_run(g@, from as int),
        from + r <= g.len(),
{
    let mut n: usize = 0;
    while from + n < g.len() && g[from + n] == 0
        invariant
            from + n <= g.len(),
            zero_run(g@, from as int) == n + zero_run(g@, from + n),
        decreases g.len() - from - n,
    {
        n += 1;
    }
    n
}

/// Writes an address.
pub fn ip_text(ip: IpAddress) -> (r: String)
    ensures
        is_ip_text(ip, r@),
{
    match ip {
        IpAddress::V4(a, b, c, d) => write_v4(a, b, c, d),
        IpAddress::V6(s0, s1, s2, s3, s4, s5, s6, s7) => {
            if s0 == 0 && s1 == 0 && s2 == 0 && s3 == 0 && s4 == 0 && s5 == 0xffff {
                let v4 = write_v4(
                    (s6 / 256) as u8,
                    (s6 % 256) as u8,
                    (s7 / 256) as u8,
                    (s7 % 256) as u8,
                );
                return cat("::ffff:", v4.as_str());
            }
            let mut g: Vec<u16> = Vec::new();
            g.push(s0);
            g.push(s1);
            g.push(s2);
            g.push(s3);
            g.push(s4);
            g.push(s5);
            g.push(s6);
            g.push(s7);
            proof {
                assert(g@ =~= seq![s0, s1, s2, s3, s4, s5, s6, s7]);
            }
            let mut best: usize = 0;
            let mut best_run: usize = run_of_zeros(&g, 0);
            let mut i: usize = 1;
            while i < 8
                invariant
                    1 <= i <= 8,
                    g.len() == 8,
                    best < i,
                    best_run as int == zero_run(g@, best as int),
                    best + best_run <= 8,
                    forall|j: int| 0 <= j < i ==> #[trigger] zero_run(g@, j) <= best_run,
                    forall|j: int| 0 <= j < best ==> #[trigger] zero_run(g@, j) < best_run,
                decreases 8 - i,
            {
                let run: usize = run_of_zeros(&g, i);
                if run > best_run {
                    best = i;
                    best_run = run;
                }
                i += 1;
            }
            proof {
                assert(is_longest_run(g@, best as int));
                assert(g@.subrange(0, best as int) =~= g@.take(best as int));
                assert(g@.subrange(best + best_run, 8) =~= g@.skip(best + best_run));
                assert(g@.subrange(0, 8) =~= g@);
            }
            if best_run > 1 {
                let left = write_groups(&g, 0, best);
                let right = write_groups(&g, best + best_run, 8);
                cat3(left.as_str(), "::", right.as_str())
            } else {
                write_groups(&g, 0, 8)
            }
        },
    }
}

/// Whether a text is an address as the host of a URL: IPv6 in brackets.
pub open spec fn is_url_host(ip: IpAddress, t: Seq<char>) -> bool {
    match ip {
        IpAddress::V4(a, b, c, d) => is_ip_text(ip, t),
        _ => exists|s: Seq<char>| #[trigger] is_ip_text(ip, s) && t == "["@ + s + "]"@,
    }
}

/// Writes an address as the host of a URL.
pub fn format_ip_for_url(ip: IpAddress) -> (r: String)
    ensures
        is_url_host(ip, r@),
{
    let text = ip_text(ip);
    match ip {
        IpAddress::V4(_, _, _, _) => text,
        _ => {
            let r = cat3("[", text.as_str(), "]");
            proof {
                assert(is_ip_text(ip, text@));
            }
            r
        },
    }
}

/// The IPv4 addresses that are not to be dialled, as ranges of numbers: this
/// network, the private networks, the shared one, the host itself, links, the
/// networks for documentation and benchmarks, groups, and everyone.
pub proof fn law_blocked_ranges(a: u8, b: u8, c: u8, d: u8)
    ensures
        ({
            let n = ((a * 256 + b) * 256 + c) * 256 + d;
            blocked(IpAddress::V4(a, b, c, d)) <==> {
                ||| n < 0x0100_0000
                ||| 0x0a00_0000 <= n < 0x0b00_0000
                ||| 0x6440_0000 <= n < 0x6480_0000
                ||| 0x7f00_0000 <= n < 0x8000_0000
                ||| 0xa9fe_0000 <= n < 0xa9ff_0000
                ||| 0xac10_0000 <= n < 0xac20_0000
                ||| 0xc000_0200 <= n < 0xc000_0300
                ||| 0xc0a8_0000 <= n < 0xc0a9_0000
                ||| 0xc612_0000 <= n < 0xc614_0000
                ||| 0xc633_6400 <= n < 0xc633_6500
                ||| 0xcb00_7100 <= n < 0xcb00_7200
                ||| 0xe000_0000 <= n < 0xf000_0000
                ||| n == 0xffff_ffff
            }
        }),
{
}

/// The IPv6 addresses that are not to be dialled: unspecified and loopback, unique
/// local ones, links, groups, and those that wrap an IPv4 address that is not.
pub proof fn law_blocked_v6(g: Seq<u16>)
    requires
        g.len() == 8,
    ensures
        ({
            let low = forall|i: int| 0 <= i < 5 ==> #[trigger] g[i] == 0;
            let inner = IpAddress::V4(
                (g[6] / 256) as u8,
                (g[6] % 256) as u8,
                (g[7] / 256) as u8,
                (g[7] % 256) as u8,
            );
            blocked(v6_address(g)) <==> {
                ||| 0xfc00 <= g[0] < 0xfe00
                ||| 0xfe80 <= g[0] < 0xfec0
                ||| 0xff00 <= g[0]
                ||| low && g[5] == 0xffff && blocked(inner)
                ||| low && g[5] == 0 && (blocked(inner) || (g[6] == 0 && (g[7] == 0 || g[7] == 1)))
            }
        }),
{
    if g[0] == 0 && g[1] == 0 && g[2] == 0 && g[3] == 0 && g[4] == 0 {
        assert forall|i: int| 0 <= i < 5 implies #[trigger] g[i] == 0 by {}
    }
}

/// A loopback address is one of the network of the host itself, or the last but one
/// of all zeros.
pub proof fn law_loopback(ip: IpAddress)
    ensures
        loopback(ip) <==> match ip {
            IpAddress::V4(a, _, _, _) => a == 127,
            IpAddress::V6(..) => ip == IpAddress::V6(0, 0, 0, 0, 0, 0, 0, 1),
        },
{
}

proof fn lemma_octet(n: u8)
    ensures
        octet_of(decimal(n as nat)) == Some(n),
        !decimal(n as nat).contains('.'),
{
    law_decimal(n as nat);
    reveal_with_fuel(decimal, 4);
    let t = decimal(n as nat);
    assert(n < 10 ==> t.len() == 1);
    assert(10 <= n < 100 ==> t.len() == 2);
    assert(100 <= n ==> t.len() == 3);
    if t.contains('.') {
        let i = choose|i: int| 0 <= i < t.len() && t[i] == '.';
        assert(is_digit(t[i]));
    }
}

/// An IPv4 address that is written down is read as it was.
pub proof fn law_ipv4_round_trip(a: u8, b: u8, c: u8, d: u8)
    ensures
        ipv4_of(v4_text(a, b, c, d)) == Some((a, b, c, d)),
        address_of(v4_text(a, b, c, d)) == Some(IpAddress::V4(a, b, c, d)),
{
    reveal_strlit(".");
    assert("."@ =~= seq!['.']);
    lemma_octet(a);
    lemma_octet(b);
    lemma_octet(c);
    lemma_octet(d);
    let (x, y, z, w) = (
        decimal(a as nat),
        decimal(b as nat),
        decimal(c as nat),
        decimal(d as nat),
    );
    let zw = z + seq!['.'] + w;
    let yzw = y + seq!['.'] + zw;
    let t = v4_text(a, b, c, d);
    assert(t =~= x + seq!['.'] + yzw);
    law_pieces_apart(x, yzw, '.');
    law_pieces_apart(y, zw, '.');
    law_pieces_apart(z, w, '.');
    law_pieces(w, '.');
    assert(pieces(t, '.') =~= seq![x, y, z, w]);
}

/// A number that is written in hexadecimal digits is read as it was.
pub proof fn law_hex_round_trip(n: nat)
    ensures
        hex_text(n).len() > 0,
        hex_number(hex_text(n)) == n,
        forall|i: int| 0 <= i < hex_text(n).len() ==> is_hex(#[trigger] hex_text(n)[i]),
    decreases n,
{
    reveal_with_fuel(hex_number, 2);
    let t = hex_text(n);
    if n < 16 {
        assert(t =~= seq![hex_char(n)]);
        assert(t.drop_last() =~= seq![]);
        assert(hex_value(hex_char(n)) == n);
    } else {
        law_hex_round_trip(n / 16);
        assert(t.drop_last() =~= hex_text(n / 16));
        assert(hex_value(hex_char(n % 16)) == n % 16);
        assert forall|i: int| 0 <= i < t.len() implies is_hex(#[trigger] t[i]) by {
            if i < t.len() - 1 {
                assert(t[i] == hex_text(n / 16)[i]);
            }
        }
    }
}

} // verus!
