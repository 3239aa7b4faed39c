//! Where another server is to be found: server names, delegation, and the
//! policy on which addresses may be dialled.

use vstd::prelude::*;
use vstd::string::*;

use crate::ip::address_of;
use crate::ip::blocked;
use crate::ip::format_ip_for_url;
use crate::ip::is_blocked_ip;
use crate::ip::is_loopback;
use crate::ip::is_url_host;
use crate::ip::loopback;
use crate::ip::parse_ip;
use crate::ip::IpAddress;
use crate::server_map::ServerMap;
use crate::text::law_decimal;
use crate::text::all_digits;
use crate::text::cat;
use crate::text::cat4;
use crate::text::chars_of;
use crate::text::decimal;
use crate::text::find_from;
use crate::text::is_digit;
use crate::text::lemma_index_of_first;
use crate::text::number_of;
use crate::text::number_text;
use crate::text::opt_string;
use crate::text::parse_number;
use crate::text::pieces;
use crate::text::rsplit_once;
use crate::text::rsplit_once_at;
use crate::text::split;
use crate::text::split_once;
use crate::text::split_once_at;
use crate::text::str_eq;
use crate::text::strip_prefix;
use crate::text::texts;
use crate::text::trim;
use crate::text::trimmed;

verus! {

/// The port on which servers listen unless they say otherwise.
pub const DEFAULT_PORT: u16 = 8448;

/// Where to connect to reach a server, and under which names.
#[derive(Debug)]
pub struct ResolvedServer {
    pub target_host: String,
    pub target_port: u16,
    /// The name that the certificate is checked for.
    pub tls_server_name: String,
    /// The value of the `Host` header.
    pub host_header: String,
    /// The addresses of the target.
    pub resolved_ips: Vec<IpAddress>,
}

/// The front of the URLs of requests to a server.
pub open spec fn base_url_of(s: ResolvedServer) -> Seq<char> {
    "https://"@ + s.tls_server_name@ + ":"@ + decimal(s.target_port as nat)
}

impl ResolvedServer {
    /// The front of the URLs of requests to the server. It carries the name that
    /// the certificate is checked for.
    pub fn base_url(&self) -> (r: String)
        ensures
            r@ == base_url_of(*self),
    {
        cat4(
            "https://",
            self.tls_server_name.as_str(),
            ":",
            number_text(self.target_port as u64).as_str(),
        )
    }

    /// The addresses of the target, each with its port.
    pub fn socket_addrs(&self) -> (r: Vec<(IpAddress, u16)>)
        ensures
            r@ == self.resolved_ips@.map_values(|ip: IpAddress| (ip, self.target_port)),
    {
        let mut out: Vec<(IpAddress, u16)> = Vec::new();
        let ghost want = self.resolved_ips@.map_values(|ip: IpAddress| (ip, self.target_port));
        let mut i: usize = 0;
        while i < self.resolved_ips.len()
            invariant
                i <= self.resolved_ips.len(),
                want == self.resolved_ips@.map_values(|ip: IpAddress| (ip, self.target_port)),
                out@ =~= want.take(i as int),
            decreases self.resolved_ips.len() - i,
        {
            out.push((self.resolved_ips[i], self.target_port));
            i += 1;
        }
        proof {
            assert(want.take(i as int) =~= want);
        }
        out
    }
}

/// Why a server cannot be reached.
#[derive(Debug)]
pub enum ResolveError {
    InvalidServerName(String),
    DnsFailure(String),
    WellKnownFailure(String),
    WellKnownMalformed,
    WellKnownTooDeep,
    PrivateIpBlocked { server_name: String, ip: IpAddress },
    NotAllowed(String),
}

pub enum ResolveErrorView {
    InvalidServerName(Seq<char>),
    DnsFailure(Seq<char>),
    WellKnownFailure(Seq<char>),
    WellKnownMalformed,
    WellKnownTooDeep,
    PrivateIpBlocked { server_name: Seq<char>, ip: IpAddress },
    NotAllowed(Seq<char>),
}

impl ResolveError {
    pub open spec fn view(&self) -> ResolveErrorView {
        match self {
            ResolveError::InvalidServerName(s) => ResolveErrorView::InvalidServerName(s@),
            ResolveError::DnsFailure(s) => ResolveErrorView::DnsFailure(s@),
            ResolveError::WellKnownFailure(s) => ResolveErrorView::WellKnownFailure(s@),
            ResolveError::WellKnownMalformed => ResolveErrorView::WellKnownMalformed,
            ResolveError::WellKnownTooDeep => ResolveErrorView::WellKnownTooDeep,
            ResolveError::PrivateIpBlocked { server_name, ip } =>
                ResolveErrorView::PrivateIpBlocked { server_name: server_name@, ip: *ip },
            ResolveError::NotAllowed(s) => ResolveErrorView::NotAllowed(s@),
        }
    }
}

/// What outbound requests may reach.
pub struct FederationPolicy {
    /// Whether addresses that are not public are refused.
    pub private_ip_block: bool,
    /// The servers that may be reached; all of them, if the list is empty.
    pub allow_list: Vec<String>,
    /// The name of this server, which may be reached at a loopback address.
    pub our_server_name: String,
}

impl FederationPolicy {
    /// The policy for production: only public addresses, any server.
    pub fn strict(our_server_name: String) -> (r: Self)
        ensures
            r.private_ip_block,
            r.allow_list@.len() == 0,
            r.our_server_name == our_server_name,
    {
        FederationPolicy { private_ip_block: true, allow_list: Vec::new(), our_server_name }
    }

    /// The policy for tests: any address, any server.
    pub fn permissive() -> (r: Self)
        ensures
            !r.private_ip_block,
            r.allow_list@.len() == 0,
            r.our_server_name@.len() == 0,
    {
        FederationPolicy {
            private_ip_block: false,
            allow_list: Vec::new(),
            our_server_name: String::new(),
        }
    }
}

impl Default for FederationPolicy {
    fn default() -> (r: Self)
        ensures
            r.private_ip_block,
            r.allow_list@.len() == 0,
            r.our_server_name@.len() == 0,
    {
        FederationPolicy {
            private_ip_block: true,
            allow_list: Vec::new(),
            our_server_name: String::new(),
        }
    }
}

/// A server name taken apart.
#[derive(Debug)]
pub struct ParsedServerName {
    pub ip: Option<IpAddress>,
    pub hostname: Option<String>,
    pub port: Option<u16>,
}

pub struct ServerNameView {
    pub ip: Option<IpAddress>,
    pub hostname: Option<Seq<char>>,
    pub port: Option<u16>,
}

impl ParsedServerName {
    pub open spec fn view(&self) -> ServerNameView {
        ServerNameView { ip: self.ip, hostname: opt_string(self.hostname), port: self.port }
    }
}

/// The port that a text spells.
pub open spec fn port_of(s: Seq<char>) -> Option<u16> {
    match number_of(s, 65535) {
        Some(n) => Some(n as u16),
        None => None,
    }
}

/// The parts of a name that starts with a bracket, without it: an IP literal up
/// to the closing bracket, then nothing or a colon and a port.
pub open spec fn bracketed_name(rest: Seq<char>) -> Option<ServerNameView> {
    match split_once_at(rest, ']') {
        None => None,
        Some((addr, tail)) => match address_of(addr) {
            None => None,
            Some(ip) => if tail.len() == 0 {
                Some(ServerNameView { ip: Some(ip), hostname: None, port: None })
            } else if tail[0] != ':' {
                None
            } else {
                match port_of(tail.skip(1)) {
                    Some(p) => Some(
                        ServerNameView { ip: Some(ip), hostname: None, port: Some(p) },
                    ),
                    None => None,
                }
            },
        },
    }
}

/// The parts of a host, an IP literal or a name, with a port.
pub open spec fn plain_host(host: Seq<char>, port: Option<u16>) -> Option<ServerNameView> {
    match address_of(host) {
        Some(ip) => Some(ServerNameView { ip: Some(ip), hostname: None, port }),
        None => if host.len() == 0 {
            None
        } else {
            Some(ServerNameView { ip: None, hostname: Some(host), port })
        },
    }
}

/// The parts of a server name: a host, and a port behind the last colon.
#[verifier::opaque]
pub open spec fn name_parts(s: Seq<char>) -> Option<ServerNameView> {
    if s.len() == 0 {
        None
    } else if s[0] == '[' {
        bracketed_name(s.skip(1))
    } else {
        match rsplit_once_at(s, ':') {
            Some((host, port)) => match port_of(port) {
                Some(p) => plain_host(host, Some(p)),
                None => None,
            },
            None => plain_host(s, None),
        }
    }
}

/// What is said of a name that cannot be taken apart.
pub open spec fn invalid_name(s: Seq<char>) -> ResolveErrorView {
    ResolveErrorView::InvalidServerName(
        if s.len() == 0 {
            "empty"@
        } else {
            s
        },
    )
}

fn parse_port(s: &str) -> (r: Option<u16>)
    ensures
        r == port_of(s@),
{
    match parse_number(s, 65535) {
        Some(n) => Some(n as u16),
        None => None,
    }
}

fn take_apart(server_name: &str) -> (r: Option<ParsedServerName>)
    ensures
        match r {
            Some(p) => name_parts(server_name@) == Some(p@),
            None => name_parts(server_name@) is None,
        },
{
    proof {
        reveal(name_parts);
    }
    let chars = chars_of(server_name);
    let n: usize = chars.len();
    if n == 0 {
        return None;
    }
    if chars[0] == '[' {
        let rest = server_name.substring_char(1, n);
        proof {
            assert(rest@ =~= server_name@.skip(1));
        }
        return match split_once(rest, ']') {
            None => None,
            Some((addr, tail)) => match parse_ip(addr) {
                None => None,
                Some(ip) => {
                    let t = chars_of(tail);
                    let m: usize = t.len();
                    if m == 0 {
                        return Some(ParsedServerName { ip: Some(ip), hostname: None, port: None });
                    }
                    if t[0] != ':' {
                        return None;
                    }
                    let digits = tail.substring_char(1, m);
                    proof {
                        assert(digits@ =~= tail@.skip(1));
                    }
                    match parse_port(digits) {
                        Some(p) => Some(
                            ParsedServerName { ip: Some(ip), hostname: None, port: Some(p) },
                        ),
                        None => None,
                    }
                },
            },
        };
    }
    let (host, port) = match rsplit_once(server_name, ':') {
        Some((h, p)) => match parse_port(p) {
            Some(n) => (h, Some(n)),
            None => {
                return None;
            },
        },
        None => (server_name, None),
    };
    match parse_ip(host) {
        Some(ip) => Some(ParsedServerName { ip: Some(ip), hostname: None, port }),
        None => {
            if host.is_empty() {
                None
            } else {
                Some(ParsedServerName { ip: None, hostname: Some(host.to_owned()), port })
            }
        },
    }
}

/// Takes a server name apart.
pub fn parse_server_name(server_name: &str) -> (r: Result<ParsedServerName, ResolveError>)
    ensures
        match r {
            Ok(p) => name_parts(server_name@) == Some(p@),
            Err(e) => name_parts(server_name@) is None && e@ == invalid_name(server_name@),
        },
{
    match take_apart(server_name) {
        Some(p) => Ok(p),
        None => {
            if server_name.is_empty() {
                Err(ResolveError::InvalidServerName("empty".to_owned()))
            } else {
                Err(ResolveError::InvalidServerName(server_name.to_owned()))
            }
        },
    }
}

/// A server name without its port; a bracketed literal keeps its brackets.
pub open spec fn host_part(s: Seq<char>) -> Seq<char> {
    if s.len() > 0 && s[0] == '[' && s.skip(1).contains(']') {
        s.take(s.skip(1).index_of_first(']')->0 + 2)
    } else {
        match rsplit_once_at(s, ':') {
            Some((h, p)) => if all_digits(p) {
                h
            } else {
                s
            },
            None => s,
        }
    }
}

fn digits_only(s: &str) -> (r: bool)
    ensures
        r == all_digits(s@),
{
    let chars = chars_of(s);
    let n: usize = chars.len();
    if n == 0 {
        return false;
    }
    let mut i: usize = 0;
    while i < n
        invariant
            i <= n,
            n == chars.len(),
            chars@ == s@,
            n > 0,
            forall|j: int| 0 <= j < i ==> is_digit(#[trigger] s@[j]),
        decreases n - i,
    {
        if chars[i] < '0' || chars[i] > '9' {
            proof {
                assert(!is_digit(s@[i as int]));
            }
            return false;
        }
        i += 1;
    }
    true
}

/// A server name without its port.
pub fn host_only(server_name: &str) -> (r: &str)
    ensures
        r@ == host_part(server_name@),
{
    let chars = chars_of(server_name);
    let n: usize = chars.len();
    if n > 0 && chars[0] == '[' {
        let i: usize = find_from(&chars, ']', 1);
        let ghost rest = server_name@.skip(1);
        if i < n {
            proof {
                assert(rest[i - 1] == ']');
                assert forall|j: int| 0 <= j < i - 1 implies rest[j] != ']' by {
                    assert(rest[j] == server_name@[j + 1]);
                }
                lemma_index_of_first(rest, ']', i - 1);
                assert(server_name@.subrange(0, i + 1) =~= server_name@.take(i + 1));
            }
            return server_name.substring_char(0, i + 1);
        }
        proof {
            assert forall|j: int| 0 <= j < rest.len() implies rest[j] != ']' by {
                assert(rest[j] == server_name@[j + 1]);
            }
        }
    }
    match rsplit_once(server_name, ':') {
        Some((h, p)) => {
            if digits_only(p) {
                h
            } else {
                server_name
            }
        },
        None => server_name,
    }
}

/// Whether a policy lets a server be reached at all: its list is empty, or names
/// the server, ports aside.
pub open spec fn on_allow_list(policy: FederationPolicy, server_name: Seq<char>) -> bool {
    policy.allow_list@.len() == 0 || exists|i: int|
        0 <= i < policy.allow_list@.len() && host_part((#[trigger] policy.allow_list@[i])@)
            == host_part(server_name)
}

/// Whether a server is this one, ports aside.
pub open spec fn is_self(policy: FederationPolicy, server_name: Seq<char>) -> bool {
    policy.our_server_name@.len() > 0 && host_part(server_name) == host_part(
        policy.our_server_name@,
    )
}

/// Whether a policy refuses to dial an address of a server: it is not public,
/// and not this server's own loopback address.
pub open spec fn refuses(policy: FederationPolicy, server_name: Seq<char>, ip: IpAddress) -> bool {
    policy.private_ip_block && blocked(ip) && !(is_self(policy, server_name) && loopback(ip))
}

/// The first of some addresses that a policy refuses.
pub open spec fn first_refused(
    policy: FederationPolicy,
    server_name: Seq<char>,
    ips: Seq<IpAddress>,
) -> Option<IpAddress>
    decreases ips.len(),
{
    if ips.len() == 0 {
        None
    } else if refuses(policy, server_name, ips[0]) {
        Some(ips[0])
    } else {
        first_refused(policy, server_name, ips.drop_first())
    }
}

/// Why a policy keeps some addresses of a server from being dialled: there are
/// none to check, unless the server is this one, or one of them is refused.
pub open spec fn ips_refusal(
    policy: FederationPolicy,
    server_name: Seq<char>,
    ips: Seq<IpAddress>,
) -> Option<ResolveErrorView> {
    if policy.private_ip_block && ips.len() == 0 && !is_self(policy, server_name) {
        Some(ResolveErrorView::DnsFailure(server_name))
    } else {
        match first_refused(policy, server_name, ips) {
            Some(ip) => Some(ResolveErrorView::PrivateIpBlocked { server_name, ip }),
            None => None,
        }
    }
}

impl FederationPolicy {
    /// Checks that a server may be reached at all.
    pub fn check_allow_list(&self, server_name: &str) -> (r: Result<(), ResolveError>)
        ensures
            match r {
                Ok(_) => on_allow_list(*self, server_name@),
                Err(e) => !on_allow_list(*self, server_name@) && e@
                    == ResolveErrorView::NotAllowed(server_name@),
            },
    {
        if self.allow_list.len() == 0 {
            return Ok(());
        }
        let host = host_only(server_name);
        let mut i: usize = 0;
        while i < self.allow_list.len()
            invariant
                i <= self.allow_list.len(),
                self.allow_list.len() > 0,
                host@ == host_part(server_name@),
                forall|j: int|
                    0 <= j < i ==> host_part((#[trigger] self.allow_list@[j])@) != host@,
            decreases self.allow_list.len() - i,
        {
            if str_eq(host_only(self.allow_list[i].as_str()), host) {
                return Ok(());
            }
            i += 1;
        }
        Err(ResolveError::NotAllowed(server_name.to_owned()))
    }

    fn names_self(&self, server_name: &str) -> (r: bool)
        ensures
            r == is_self(*self, server_name@),
    {
        if self.our_server_name.as_str().is_empty() {
            return false;
        }
        str_eq(host_only(server_name), host_only(self.our_server_name.as_str()))
    }

    fn find_refused(&self, server_name: &str, ips: &Vec<IpAddress>) -> (r: Option<IpAddress>)
        ensures
            r == first_refused(*self, server_name@, ips@),
    {
        let own = self.names_self(server_name);
        let mut i: usize = 0;
        proof {
            assert(ips@.skip(0) =~= ips@);
        }
        while i < ips.len()
            invariant
                i <= ips.len(),
                own == is_self(*self, server_name@),
                first_refused(*self, server_name@, ips@) == first_refused(
                    *self,
                    server_name@,
                    ips@.skip(i as int),
                ),
            decreases ips.len() - i,
        {
            proof {
                assert(ips@.skip(i as int)[0] == ips@[i as int]);
                assert(ips@.skip(i as int).drop_first() =~= ips@.skip(i + 1));
            }
            if self.private_ip_block && is_blocked_ip(ips[i]) && !(own && is_loopback(ips[i])) {
                return Some(ips[i]);
            }
            i += 1;
        }
        None
    }

    /// Checks that the addresses of a server may be dialled. Under the block on
    /// private addresses, a server without addresses may not: what cannot be
    /// looked up cannot be checked. Only this server itself is excused.
    pub fn check_resolved_ips(&self, server_name: &str, ips: &Vec<IpAddress>) -> (r: Result<
        (),
        ResolveError,
    >)
        ensures
            match r {
                Ok(_) => ips_refusal(*self, server_name@, ips@) is None,
                Err(e) => ips_refusal(*self, server_name@, ips@) == Some(e@),
            },
            self.private_ip_block && ips@.len() == 0 && !is_self(*self, server_name@) ==> r is Err,
    {
        if self.private_ip_block && ips.len() == 0 && !self.names_self(server_name) {
            return Err(ResolveError::DnsFailure(server_name.to_owned()));
        }
        match self.find_refused(server_name, ips) {
            None => Ok(()),
            Some(ip) => Err(
                ResolveError::PrivateIpBlocked { server_name: server_name.to_owned(), ip },
            ),
        }
    }

    /// Whether the addresses of a host may be dialled for its delegation
    /// document. Under the block on private addresses, a host without addresses
    /// may not.
    pub fn well_known_ips_permitted(&self, hostname: &str, ips: &Vec<IpAddress>) -> (r: bool)
        ensures
            r == (!self.private_ip_block || (ips@.len() > 0 && first_refused(
                *self,
                hostname@,
                ips@,
            ) is None)),
    {
        if !self.private_ip_block {
            return true;
        }
        if ips.len() == 0 {
            return false;
        }
        self.find_refused(hostname, ips).is_none()
    }
}

/// No address that gets past a strict policy is private, but for a loopback
/// address of this server itself.
pub proof fn law_no_private_targets(
    policy: FederationPolicy,
    server_name: Seq<char>,
    ips: Seq<IpAddress>,
    i: int,
)
    requires
        policy.private_ip_block,
        first_refused(policy, server_name, ips) is None,
        0 <= i < ips.len(),
    ensures
        !blocked(ips[i]) || (is_self(policy, server_name) && loopback(ips[i])),
    decreases ips.len(),
{
    if i > 0 {
        law_no_private_targets(policy, server_name, ips.drop_first(), i - 1);
        assert(ips.drop_first()[i - 1] == ips[i]);
    }
}

proof fn lemma_rsplit(s: Seq<char>, h: Seq<char>, p: Seq<char>)
    requires
        s == h + seq![':'] + p,
        !p.contains(':'),
    ensures
        rsplit_once_at(s, ':') == Some((h, p)),
{
    s.index_of_last_ensures(':');
    let i = h.len() as int;
    assert(s[i] == ':');
    assert forall|j: int| i < j < s.len() implies s[j] != ':' by {
        assert(s[j] == p[j - i - 1]);
        if s[j] == ':' {
            assert(p.contains(':'));
        }
    }
    let k = s.index_of_last(':')->0;
    assert(s.contains(':'));
    assert(k == i);
    assert(s.take(i) =~= h);
    assert(s.skip(i + 1) =~= p);
}

/// A port does not change which server a name is: with one the host part is the
/// same as without, for a host without colons and brackets.
pub proof fn law_port_is_ignored(host: Seq<char>, port: Seq<char>)
    requires
        all_digits(port),
        !host.contains(':'),
        host.len() > 0 ==> host[0] != '[',
    ensures
        host_part(host + seq![':'] + port) == host,
        host_part(host) == host,
{
    let s = host + seq![':'] + port;
    assert(!port.contains(':')) by {
        if port.contains(':') {
            let i = choose|i: int| 0 <= i < port.len() && port[i] == ':';
            assert(is_digit(port[i]));
        }
    }
    lemma_rsplit(s, host, port);
    if host.len() > 0 {
        assert(s[0] == host[0]);
    } else {
        assert(s[0] == ':');
    }
    host.index_of_last_ensures(':');
}

/// The longest time for which a delegation is remembered: two days.
pub const WELL_KNOWN_MAX_TTL_MS: u64 = 172_800_000;

/// The time for which a delegation is remembered that does not say how long.
pub const WELL_KNOWN_DEFAULT_TTL_MS: u64 = 86_400_000;

/// The time for which the lack of a delegation is remembered.
pub const WELL_KNOWN_NEG_TTL_MS: u64 = 3_600_000;

/// What a directive of a cache header says of the age: `None` if it is another
/// directive.
pub open spec fn max_age_directive(d: Seq<char>) -> Option<Option<u64>> {
    let t = trimmed(d);
    if "max-age="@.is_prefix_of(t) {
        Some(
            match number_of(t.skip("max-age="@.len() as int), u64::MAX as nat) {
                Some(n) => Some(n as u64),
                None => None,
            },
        )
    } else {
        None
    }
}

/// The age that the first directive about it states.
pub open spec fn max_age(directives: Seq<Seq<char>>) -> Option<u64>
    decreases directives.len(),
{
    if directives.len() == 0 {
        None
    } else {
        match max_age_directive(directives[0]) {
            Some(age) => age,
            None => max_age(directives.drop_first()),
        }
    }
}

/// The number of seconds that a cache header allows.
pub fn parse_max_age_seconds(value: &str) -> (r: Option<u64>)
    ensures
        r == max_age(pieces(value@, ',')),
{
    let parts = split(value, ',');
    let ghost t = texts(parts@);
    let mut i: usize = 0;
    proof {
        assert(t.skip(0) =~= t);
    }
    while i < parts.len()
        invariant
            i <= parts.len(),
            t == texts(parts@),
            t == pieces(value@, ','),
            max_age(t) == max_age(t.skip(i as int)),
        decreases parts.len() - i,
    {
        proof {
            assert(t.skip(i as int)[0] == parts@[i as int]@);
            assert(t.skip(i as int).drop_first() =~= t.skip(i + 1));
        }
        let d = trim(parts[i].as_str());
        match strip_prefix(d, "max-age=") {
            Some(n) => {
                return parse_number(n, u64::MAX);
            },
            None => {},
        }
        i += 1;
    }
    None
}

/// What came of asking a host for its delegation.
pub enum WellKnownReply {
    /// The host may not be asked, or did not answer well.
    Failed,
    /// It answered, with a cache header and a delegation if it could be read.
    Answered { cache_control: Option<String>, delegated: Option<String> },
}

/// A delegation, or the lack of one, that is remembered for a while.
pub struct CachedWellKnown {
    pub delegated: Option<String>,
    pub expires_at_ms: u64,
}

/// The delegation that a reply gives, if any: an empty one is none.
pub open spec fn delegation(reply: WellKnownReply) -> Option<Seq<char>> {
    match reply {
        WellKnownReply::Failed => None,
        WellKnownReply::Answered { cache_control, delegated } => match delegated {
            Some(d) => if d@.len() == 0 {
                None
            } else {
                Some(d@)
            },
            None => None,
        },
    }
}

/// For how long what a reply says is remembered, in milliseconds: as long as the
/// reply allows, at most two days; a lack of delegation for an hour.
pub open spec fn remembered_for(reply: WellKnownReply) -> u64 {
    if delegation(reply) is None {
        WELL_KNOWN_NEG_TTL_MS
    } else {
        match reply {
            WellKnownReply::Answered { cache_control: Some(c), delegated } => match max_age(
                pieces(c@, ','),
            ) {
                Some(secs) => if secs as int * 1000 <= WELL_KNOWN_MAX_TTL_MS {
                    (secs as int * 1000) as u64
                } else {
                    WELL_KNOWN_MAX_TTL_MS
                },
                None => WELL_KNOWN_DEFAULT_TTL_MS,
            },
            _ => WELL_KNOWN_DEFAULT_TTL_MS,
        }
    }
}

/// The delegations that are remembered.
pub struct WellKnownCache {
    pub entries: ServerMap<CachedWellKnown>,
}

/// What a cache says of a host at a time: `None` if it does not know.
pub open spec fn remembered(
    cache: WellKnownCache,
    host: Seq<char>,
    now: u64,
) -> Option<Option<Seq<char>>> {
    match cache.entries.find(host) {
        Some(e) => if e.expires_at_ms > now {
            Some(opt_string(e.delegated))
        } else {
            None
        },
        None => None,
    }
}

fn copy_text(o: &Option<String>) -> (r: Option<String>)
    ensures
        opt_string(r) == opt_string(*o),
{
    match o {
        Some(s) => Some(s.clone()),
        None => None,
    }
}

impl WellKnownCache {
    pub open spec fn wf(self) -> bool {
        self.entries.wf()
    }

    pub fn new() -> (r: Self)
        ensures
            r.wf(),
            forall|h: Seq<char>| #[trigger] r.entries.find(h) is None,
    {
        WellKnownCache { entries: ServerMap::new() }
    }

    /// What the cache says of a host; what has expired is forgotten.
    pub fn lookup(&mut self, hostname: &str, now: u64) -> (r: Option<Option<String>>)
        requires
            old(self).wf(),
        ensures
            final(self).wf(),
            match r {
                Some(d) => remembered(*old(self), hostname@, now) == Some(opt_string(d)),
                None => remembered(*old(self), hostname@, now) is None,
            },
            forall|h: Seq<char>| #[trigger]
                final(self).entries.find(h) == (if h == hostname@ && r is None {
                    None
                } else {
                    old(self).entries.find(h)
                }),
    {
        let found = match self.entries.get(hostname) {
            Some(e) => {
                if e.expires_at_ms > now {
                    return Some(copy_text(&e.delegated));
                }
                true
            },
            None => false,
        };
        if found {
            self.entries.remove(hostname);
        }
        None
    }

    /// Remembers a delegation, or the lack of one, for a time.
    pub fn seed_well_known(
        &mut self,
        hostname: &str,
        delegated: Option<String>,
        ttl_ms: u64,
        now: u64,
    )
        requires
            old(self).wf(),
        ensures
            final(self).wf(),
            forall|h: Seq<char>| #[trigger]
                final(self).entries.find(h) == (if h == hostname@ {
                    Some(
                        CachedWellKnown {
                            delegated,
                            expires_at_ms: crate::keys::capped_sum(now, ttl_ms),
                        },
                    )
                } else {
                    old(self).entries.find(h)
                }),
    {
        let entry = CachedWellKnown { delegated, expires_at_ms: now.saturating_add(ttl_ms) };
        self.entries.insert(hostname, entry);
    }

    /// Remembers what a host replied, and says what that is.
    pub fn lookup_well_known(&mut self, hostname: &str, reply: &WellKnownReply, now: u64) -> (r:
        Option<String>)
        requires
            old(self).wf(),
        ensures
            final(self).wf(),
            opt_string(r) == delegation(*reply),
            final(self).entries.find(hostname@) matches Some(e) && opt_string(e.delegated)
                == delegation(*reply) && e.expires_at_ms == crate::keys::capped_sum(
                now,
                remembered_for(*reply),
            ),
            forall|h: Seq<char>|
                h != hostname@ ==> #[trigger] final(self).entries.find(h) == old(
                    self,
                ).entries.find(h),
    {
        let delegated = match reply {
            WellKnownReply::Failed => None,
            WellKnownReply::Answered { cache_control: _, delegated } => match delegated {
                Some(d) => {
                    if d.as_str().is_empty() {
                        None
                    } else {
                        Some(d.clone())
                    }
                },
                None => None,
            },
        };
        let ttl: u64 = if delegated.is_none() {
            WELL_KNOWN_NEG_TTL_MS
        } else {
            match reply {
                WellKnownReply::Answered { cache_control: Some(c), delegated: _ } =>
                    match parse_max_age_seconds(c.as_str()) {
                    Some(secs) => {
                        if secs <= WELL_KNOWN_MAX_TTL_MS / 1000 {
                            secs * 1000
                        } else {
                            WELL_KNOWN_MAX_TTL_MS
                        }
                    },
                    None => WELL_KNOWN_DEFAULT_TTL_MS,
                },
                _ => WELL_KNOWN_DEFAULT_TTL_MS,
            }
        };
        let entry = CachedWellKnown {
            delegated: copy_text(&delegated),
            expires_at_ms: now.saturating_add(ttl),
        };
        self.entries.insert(hostname, entry);
        delegated
    }
}

/// What is remembered is remembered for at most two days.
pub proof fn law_well_known_lifetime(reply: WellKnownReply)
    ensures
        remembered_for(reply) <= WELL_KNOWN_MAX_TTL_MS,
{
}

/// A service record.
pub struct SrvRecord {
    pub priority: u16,
    pub weight: u16,
    pub port: u16,
    pub target: String,
}

/// Whether a record comes before another: a lower priority, or a higher weight
/// at the same priority.
pub open spec fn srv_before(a: SrvRecord, b: SrvRecord) -> bool {
    a.priority < b.priority || (a.priority == b.priority && a.weight > b.weight)
}

/// Whether a record is the first among some: none comes before it, and it comes
/// before all that stand in front of it.
pub open spec fn is_first_srv(v: Seq<SrvRecord>, i: int) -> bool {
    &&& 0 <= i < v.len()
    &&& forall|j: int| 0 <= j < v.len() ==> !srv_before(#[trigger] v[j], v[i])
    &&& forall|j: int| 0 <= j < i ==> srv_before(v[i], #[trigger] v[j])
}

/// A name without the dots at its end.
pub open spec fn without_dots(s: Seq<char>) -> Seq<char>
    decreases s.len(),
{
    if s.len() > 0 && s.last() == '.' {
        without_dots(s.drop_last())
    } else {
        s
    }
}

fn strip_dots(s: &str) -> (r: String)
    ensures
        r@ == without_dots(s@),
{
    let chars = chars_of(s);
    let mut n: usize = chars.len();
    proof {
        assert(s@.take(n as int) =~= s@);
    }
    while n > 0 && chars[n - 1] == '.'
        invariant
            n <= chars.len(),
            chars@ == s@,
            without_dots(s@) == without_dots(s@.take(n as int)),
        decreases n,
    {
        proof {
            assert(s@.take(n as int).drop_last() =~= s@.take(n - 1));
            assert(s@.take(n as int).last() == s@[n - 1]);
        }
        n -= 1;
    }
    proof {
        if n > 0 {
            assert(s@.take(n as int).last() == s@[n - 1]);
        }
        assert(s@.subrange(0, n as int) =~= s@.take(n as int));
    }
    s.substring_char(0, n).to_owned()
}

/// The target and port of the first of some service records.
pub fn lookup_srv(records: &Vec<SrvRecord>) -> (r: Option<(String, u16)>)
    ensures
        match r {
            None => records@.len() == 0,
            Some((target, port)) => exists|i: int| #[trigger]
                is_first_srv(records@, i) && target@ == without_dots(records@[i].target@) && port
                    == records@[i].port,
        },
{
    let n: usize = records.len();
    if n == 0 {
        return None;
    }
    let mut best: usize = 0;
    let mut i: usize = 1;
    while i < n
        invariant
            1 <= i <= n,
            n == records.len(),
            best < i,
            forall|j: int| 0 <= j < i ==> !srv_before(#[trigger] records@[j], records@[best as int]),
            forall|j: int| 0 <= j < best ==> srv_before(records@[best as int], #[trigger] records@[j]),
        decreases n - i,
    {
        let a = &records[i];
        let b = &records[best];
        if a.priority < b.priority || (a.priority == b.priority && a.weight > b.weight) {
            best = i;
        }
        i += 1;
    }
    proof {
        assert(is_first_srv(records@, best as int));
    }
    Some((strip_dots(records[best].target.as_str()), records[best].port))
}

/// What is known so far about where a server is.
pub struct ResolveFacts {
    pub server_name: String,
    /// The delegation of the server, if it has one.
    pub delegated: Option<Option<String>>,
    /// The target and port of its service record.
    pub srv: Option<Option<(String, u16)>>,
    /// The same under the deprecated name.
    pub legacy_srv: Option<Option<(String, u16)>>,
    /// The addresses of the host to connect to.
    pub ips: Option<Vec<IpAddress>>,
}

/// What to find out next about where a server is, or the answer.
pub enum ResolveStep {
    LookupWellKnown { hostname: String },
    LookupSrv { name: String },
    LookupIps { host: String },
    Found(ResolvedServer),
    Failed(ResolveError),
}

/// A target before its addresses are known.
pub struct Target {
    pub host: Seq<char>,
    pub port: u16,
    pub tls_name: Seq<char>,
    pub host_header: Seq<char>,
}

/// Where a name leads: the next question, an address that the name spells out,
/// or a host whose addresses are to be looked up. An address may be spelled out
/// by the name itself or by the name it is delegated to.
pub enum Lead {
    LookupWellKnown { hostname: Seq<char> },
    LookupSrv { name: Seq<char> },
    Literal { ip: IpAddress, port: u16, host_header: Seq<char>, delegated: bool },
    Host(Target),
    Failed(ResolveErrorView),
}

/// Where a bare host name leads that is not delegated further: to its service
/// record, to the deprecated one, or to itself on the default port. The `Host`
/// header stays that of the name, and the certificate is the given one.
pub open spec fn bare_lead(f: ResolveFacts, hostname: Seq<char>, tls_name: Seq<char>) -> Lead {
    match f.srv {
        None => Lead::LookupSrv { name: "_matrix-fed._tcp."@ + hostname },
        Some(Some((target, port))) => Lead::Host(
            Target { host: target@, port, tls_name, host_header: hostname },
        ),
        Some(None) => match f.legacy_srv {
            None => Lead::LookupSrv { name: "_matrix._tcp."@ + hostname },
            Some(Some((target, port))) => Lead::Host(
                Target { host: target@, port, tls_name, host_header: hostname },
            ),
            Some(None) => Lead::Host(
                Target {
                    host: hostname,
                    port: DEFAULT_PORT,
                    tls_name,
                    host_header: hostname,
                },
            ),
        },
    }
}

/// The name that a certificate must be for: that of the host which a name
/// spells out, but for a delegated name the original one.
pub open spec fn tls_name(f: ResolveFacts, hostname: Seq<char>, original: bool) -> Seq<char> {
    if original {
        hostname
    } else {
        f.server_name@
    }
}

/// Where a name leads. Only the original name may be delegated, and the
/// certificate of a delegated one is still for the original name.
pub open spec fn lead(f: ResolveFacts, name: Seq<char>, original: bool) -> Lead {
    match name_parts(name) {
        None => Lead::Failed(invalid_name(name)),
        Some(parts) => match (parts.ip, parts.hostname, parts.port) {
            (Some(ip), _, port) => Lead::Literal {
                ip,
                port: match port {
                    Some(p) => p,
                    None => DEFAULT_PORT,
                },
                host_header: name,
                delegated: !original,
            },
            (None, Some(hostname), Some(port)) => Lead::Host(
                Target {
                    host: hostname,
                    port,
                    tls_name: tls_name(f, hostname, original),
                    host_header: name,
                },
            ),
            (None, Some(hostname), None) => if original && f.delegated is None {
                Lead::LookupWellKnown { hostname }
            } else {
                bare_lead(f, hostname, tls_name(f, hostname, original))
            },
            (None, None, _) => Lead::Failed(invalid_name(name)),
        },
    }
}

/// Where the search for a server has come to: the name itself, or the name it is
/// delegated to. A delegated name is not delegated again.
pub open spec fn search(f: ResolveFacts) -> Lead {
    match lead(f, f.server_name@, true) {
        Lead::LookupWellKnown { hostname } => Lead::LookupWellKnown { hostname },
        other => if bare_name(f.server_name@) {
            match f.delegated {
                Some(Some(d)) => lead(f, d@, false),
                _ => other,
            }
        } else {
            other
        },
    }
}

/// Whether a name is a host name without a port.
pub open spec fn bare_name(name: Seq<char>) -> bool {
    match name_parts(name) {
        Some(parts) => parts.ip is None && parts.hostname is Some && parts.port is None,
        None => false,
    }
}

/// Whether a step is what the search for a server calls for: the server must be
/// one that may be reached, and its addresses ones that may be dialled. A name
/// that is an address is dialled as it stands, with no addresses beside it; an
/// address that a name is delegated to is the one to dial under the name.
pub open spec fn is_resolve_step(
    policy: FederationPolicy,
    f: ResolveFacts,
    s: ResolveStep,
) -> bool {
    if !on_allow_list(policy, f.server_name@) {
        s matches ResolveStep::Failed(e) && e@ == ResolveErrorView::NotAllowed(f.server_name@)
    } else {
        match search(f) {
            Lead::LookupWellKnown { hostname } => s matches ResolveStep::LookupWellKnown {
                hostname: h,
            } && h@ == hostname,
            Lead::LookupSrv { name } => s matches ResolveStep::LookupSrv { name: n } && n@ == name,
            Lead::Failed(e) => s matches ResolveStep::Failed(x) && x@ == e,
            Lead::Literal { ip, port, host_header, delegated } => if refuses(
                policy,
                f.server_name@,
                ip,
            ) {
                s matches ResolveStep::Failed(x) && x@ == (ResolveErrorView::PrivateIpBlocked {
                    server_name: f.server_name@,
                    ip,
                })
            } else {
                s matches ResolveStep::Found(r) && {
                    &&& is_url_host(ip, r.target_host@)
                    &&& r.target_port == port
                    &&& r.host_header@ == host_header
                    &&& if delegated {
                        &&& r.tls_server_name@ == f.server_name@
                        &&& r.resolved_ips@ == seq![ip]
                    } else {
                        &&& r.tls_server_name@ == r.target_host@
                        &&& r.resolved_ips@.len() == 0
                    }
                }
            },
            Lead::Host(t) => match f.ips {
                None => s matches ResolveStep::LookupIps { host } && host@ == t.host,
                Some(ips) => match ips_refusal(policy, f.server_name@, ips@) {
                    Some(e) => s matches ResolveStep::Failed(x) && x@ == e,
                    None => s matches ResolveStep::Found(r) && {
                        &&& r.target_host@ == t.host
                        &&& r.target_port == t.port
                        &&& r.tls_server_name@ == t.tls_name
                        &&& r.host_header@ == t.host_header
                        &&& r.resolved_ips@ == ips@
                    },
                },
            },
        }
    }
}

/// A target before its addresses are known, as text.
struct TargetText {
    host: String,
    port: u16,
    tls_name: String,
    host_header: String,
}

enum LeadText {
    LookupWellKnown { hostname: String },
    LookupSrv { name: String },
    Literal { ip: IpAddress, port: u16, host_header: String, delegated: bool },
    Host(TargetText),
    Failed(ResolveError),
}

impl LeadText {
    closed spec fn view(&self) -> Lead {
        match self {
            LeadText::LookupWellKnown { hostname } => Lead::LookupWellKnown { hostname: hostname@ },
            LeadText::LookupSrv { name } => Lead::LookupSrv { name: name@ },
            LeadText::Literal { ip, port, host_header, delegated } => Lead::Literal {
                ip: *ip,
                port: *port,
                host_header: host_header@,
                delegated: *delegated,
            },
            LeadText::Host(t) => Lead::Host(
                Target {
                    host: t.host@,
                    port: t.port,
                    tls_name: t.tls_name@,
                    host_header: t.host_header@,
                },
            ),
            LeadText::Failed(e) => Lead::Failed(e@),
        }
    }
}

fn follow_bare(f: &ResolveFacts, hostname: &str, tls: &str) -> (r: LeadText)
    ensures
        r@ == bare_lead(*f, hostname@, tls@),
{
    match &f.srv {
        None => {
            return LeadText::LookupSrv { name: cat("_matrix-fed._tcp.", hostname) };
        },
        Some(Some((target, port))) => {
            return LeadText::Host(
                TargetText {
                    host: target.clone(),
                    port: *port,
                    tls_name: tls.to_owned(),
                    host_header: hostname.to_owned(),
                },
            );
        },
        Some(None) => {},
    }
    match &f.legacy_srv {
        None => LeadText::LookupSrv { name: cat("_matrix._tcp.", hostname) },
        Some(Some((target, port))) => LeadText::Host(
            TargetText {
                host: target.clone(),
                port: *port,
                tls_name: tls.to_owned(),
                host_header: hostname.to_owned(),
            },
        ),
        Some(None) => LeadText::Host(
            TargetText {
                host: hostname.to_owned(),
                port: DEFAULT_PORT,
                tls_name: tls.to_owned(),
                host_header: hostname.to_owned(),
            },
        ),
    }
}

fn follow(f: &ResolveFacts, name: &str, original: bool) -> (r: (LeadText, bool))
    ensures
        r.0@ == lead(*f, name@, original),
        r.1 == bare_name(name@),
{
    let parts = match parse_server_name(name) {
        Ok(p) => p,
        Err(e) => {
            return (LeadText::Failed(e), false);
        },
    };
    match (parts.ip, parts.hostname, parts.port) {
        (Some(ip), _, port) => {
            let port: u16 = match port {
                Some(p) => p,
                None => DEFAULT_PORT,
            };
            (
                LeadText::Literal {
                    ip,
                    port,
                    host_header: name.to_owned(),
                    delegated: !original,
                },
                false,
            )
        },
        (None, Some(hostname), Some(port)) => {
            let tls = if original {
                hostname.clone()
            } else {
                f.server_name.clone()
            };
            (
                LeadText::Host(
                    TargetText { host: hostname, port, tls_name: tls, host_header: name.to_owned() },
                ),
                false,
            )
        },
        (None, Some(hostname), None) => {
            if original && f.delegated.is_none() {
                (LeadText::LookupWellKnown { hostname }, true)
            } else {
                let tls = if original {
                    hostname.as_str()
                } else {
                    f.server_name.as_str()
                };
                (follow_bare(f, hostname.as_str(), tls), true)
            }
        },
        (None, None, _) => (
            LeadText::Failed(
                ResolveError::InvalidServerName(
                    if name.is_empty() {
                        "empty".to_owned()
                    } else {
                        name.to_owned()
                    },
                ),
            ),
            false,
        ),
    }
}

fn follow_delegation(f: &ResolveFacts) -> (r: LeadText)
    ensures
        r@ == search(*f),
{
    let (first, bare) = follow(f, f.server_name.as_str(), true);
    match first {
        LeadText::LookupWellKnown { hostname } => LeadText::LookupWellKnown { hostname },
        other => {
            if bare {
                match &f.delegated {
                    Some(Some(d)) => {
                        let (second, _) = follow(f, d.as_str(), false);
                        second
                    },
                    _ => other,
                }
            } else {
                other
            }
        },
    }
}

fn copy_ips(v: &Vec<IpAddress>) -> (r: Vec<IpAddress>)
    ensures
        r@ == v@,
{
    let mut out: Vec<IpAddress> = Vec::new();
    let mut i: usize = 0;
    while i < v.len()
        invariant
            i <= v.len(),
            out@ =~= v@.take(i as int),
        decreases v.len() - i,
    {
        out.push(v[i]);
        i += 1;
    }
    proof {
        assert(v@.take(i as int) =~= v@);
    }
    out
}

/// Finds out where servers are: with a policy on which may be reached, and the
/// delegations that are remembered.
pub struct FederationResolver {
    pub policy: FederationPolicy,
    pub well_known: WellKnownCache,
}

impl FederationResolver {
    pub open spec fn wf(self) -> bool {
        self.well_known.wf()
    }

    /// A resolver that reaches any server at any address.
    pub fn new() -> (r: Self)
        ensures
            r.wf(),
            !r.policy.private_ip_block,
            r.policy.allow_list@.len() == 0,
            r.policy.our_server_name@.len() == 0,
            forall|h: Seq<char>| #[trigger] r.well_known.entries.find(h) is None,
    {
        FederationResolver::with_policy(FederationPolicy::permissive())
    }

    /// A resolver with a policy.
    pub fn with_policy(policy: FederationPolicy) -> (r: Self)
        ensures
            r.wf(),
            r.policy == policy,
            forall|h: Seq<char>| #[trigger] r.well_known.entries.find(h) is None,
    {
        FederationResolver { policy, well_known: WellKnownCache::new() }
    }

    /// Names what to find out next about where a server is, or the answer: an IP
    /// literal and a name with a port are taken as they are; otherwise delegation,
    /// service records and the name itself are tried in this order.
    pub fn resolve(&self, f: &ResolveFacts) -> (r: ResolveStep)
        ensures
            is_resolve_step(self.policy, *f, r),
    {
        match self.policy.check_allow_list(f.server_name.as_str()) {
            Ok(_) => {},
            Err(e) => {
                return ResolveStep::Failed(e);
            },
        }
        match follow_delegation(f) {
            LeadText::LookupWellKnown { hostname } => ResolveStep::LookupWellKnown { hostname },
            LeadText::LookupSrv { name } => ResolveStep::LookupSrv { name },
            LeadText::Failed(e) => ResolveStep::Failed(e),
            LeadText::Literal { ip, port, host_header, delegated } => {
                let own = self.policy.names_self(f.server_name.as_str());
                if self.policy.private_ip_block && is_blocked_ip(ip) && !(own && is_loopback(ip)) {
                    return ResolveStep::Failed(
                        ResolveError::PrivateIpBlocked { server_name: f.server_name.clone(), ip },
                    );
                }
                let host = format_ip_for_url(ip);
                let mut ips: Vec<IpAddress> = Vec::new();
                let tls = if delegated {
                    ips.push(ip);
                    f.server_name.clone()
                } else {
                    host.clone()
                };
                ResolveStep::Found(
                    ResolvedServer {
                        target_host: host,
                        target_port: port,
                        tls_server_name: tls,
                        host_header,
                        resolved_ips: ips,
                    },
                )
            },
            LeadText::Host(t) => match &f.ips {
                None => ResolveStep::LookupIps { host: t.host },
                Some(ips) => match self.policy.check_resolved_ips(f.server_name.as_str(), ips) {
                    Err(e) => ResolveStep::Failed(e),
                    Ok(_) => ResolveStep::Found(
                        ResolvedServer {
                            target_host: t.host,
                            target_port: t.port,
                            tls_server_name: t.tls_name,
                            host_header: t.host_header,
                            resolved_ips: copy_ips(ips),
                        },
                    ),
                },
            },
        }
    }
}

/// Whatever delegation and service records say, a server that the policy does
/// not list is not reached, and no target that is found has an address that the
/// policy refuses for the server that was asked for.
pub proof fn law_resolved_is_permitted(
    policy: FederationPolicy,
    f: ResolveFacts,
    s: ResolveStep,
)
    requires
        is_resolve_step(policy, f, s),
        s is Found,
    ensures
        on_allow_list(policy, f.server_name@),
        search(f) matches Lead::Literal { ip, .. } ==> !refuses(policy, f.server_name@, ip),
        forall|i: int|
            0 <= i < s->Found_0.resolved_ips@.len() ==> !refuses(
                policy,
                f.server_name@,
                #[trigger] s->Found_0.resolved_ips@[i],
            ),
{
    let ips = s->Found_0.resolved_ips@;
    if search(f) is Host {
        assert forall|i: int| 0 <= i < ips.len() implies !refuses(
            policy,
            f.server_name@,
            #[trigger] ips[i],
        ) by {
            lemma_not_refused(policy, f.server_name@, ips, i);
        }
    }
}

/// Under the block on private addresses, nothing is left to be looked up by who
/// dials: a target that is found is an address itself, or comes with addresses,
/// or is this server.
pub proof fn law_nothing_is_dialled_unchecked(
    policy: FederationPolicy,
    f: ResolveFacts,
    s: ResolveStep,
)
    requires
        is_resolve_step(policy, f, s),
        s is Found,
        policy.private_ip_block,
    ensures
        search(f) is Literal || s->Found_0.resolved_ips@.len() > 0 || is_self(
            policy,
            f.server_name@,
        ),
{
}

/// The certificate of a server that is delegated is for the name that was asked
/// for, wherever the delegation leads.
pub proof fn law_delegation_keeps_the_certificate(
    policy: FederationPolicy,
    f: ResolveFacts,
    s: ResolveStep,
)
    requires
        is_resolve_step(policy, f, s),
        s is Found,
        bare_name(f.server_name@),
        f.delegated matches Some(Some(_)),
    ensures
        s->Found_0.tls_server_name@ == f.server_name@,
{
}

proof fn lemma_not_refused(
    policy: FederationPolicy,
    server_name: Seq<char>,
    ips: Seq<IpAddress>,
    i: int,
)
    requires
        first_refused(policy, server_name, ips) is None,
        0 <= i < ips.len(),
    ensures
        !refuses(policy, server_name, ips[i]),
    decreases ips.len(),
{
    if i > 0 {
        lemma_not_refused(policy, server_name, ips.drop_first(), i - 1);
        assert(ips.drop_first()[i - 1] == ips[i]);
    }
}

/// A port is read from its decimal digits, up to the largest there is.
pub proof fn law_ports(n: nat)
    ensures
        n <= 65535 ==> port_of(decimal(n)) == Some(n as u16),
        n > 65535 ==> port_of(decimal(n)) is None,
{
    law_decimal(n);
    let t = decimal(n);
    assert(is_digit(t[0]));
}

/// A host with or without a port is taken apart at the colon between them: an
/// address is taken as one, anything else as a name.
pub proof fn law_name_parts(host: Seq<char>, n: nat)
    requires
        host.len() > 0,
        host[0] != '[',
        !host.contains(':'),
        n <= 65535,
    ensures
        ({
            let bare = name_parts(host);
            let ported = name_parts(host + seq![':'] + decimal(n));
            &&& address_of(host) is None ==> bare == Some(
                ServerNameView { ip: None, hostname: Some(host), port: None },
            ) && ported == Some(
                ServerNameView { ip: None, hostname: Some(host), port: Some(n as u16) },
            )
            &&& address_of(host) matches Some(ip) ==> bare == Some(
                ServerNameView { ip: Some(ip), hostname: None, port: None },
            ) && ported == Some(
                ServerNameView { ip: Some(ip), hostname: None, port: Some(n as u16) },
            )
        }),
{
    reveal(name_parts);
    law_ports(n);
    law_decimal(n);
    let p = decimal(n);
    if p.contains(':') {
        let i = choose|i: int| 0 <= i < p.len() && p[i] == ':';
        assert(is_digit(p[i]));
    }
    let s = host + seq![':'] + p;
    lemma_rsplit(s, host, p);
    assert(s[0] == host[0]);
    host.index_of_last_ensures(':');
}

/// A bracketed address with or without a port is taken apart at the bracket.
pub proof fn law_bracketed_parts(a: Seq<char>, ip: IpAddress, n: nat)
    requires
        !a.contains(']'),
        address_of(a) == Some(ip),
        n <= 65535,
    ensures
        name_parts(seq!['['] + a + seq![']']) == Some(
            ServerNameView { ip: Some(ip), hostname: None, port: None },
        ),
        name_parts(seq!['['] + a + seq![']', ':'] + decimal(n)) == Some(
            ServerNameView { ip: Some(ip), hostname: None, port: Some(n as u16) },
        ),
{
    law_ports(n);
    let tail = seq![':'] + decimal(n);
    let s = seq!['['] + a + seq![']'];
    let t = seq!['['] + a + seq![']', ':'] + decimal(n);
    assert(s =~= seq!['['] + (a + seq![']'] + seq![]));
    assert(t =~= seq!['['] + (a + seq![']'] + tail));
    assert(tail.skip(1) =~= decimal(n));
    lemma_bracketed(a, seq![]);
    lemma_bracketed(a, tail);
}

proof fn lemma_bracketed(a: Seq<char>, tail: Seq<char>)
    requires
        !a.contains(']'),
        address_of(a) is Some,
    ensures
        name_parts(seq!['['] + (a + seq![']'] + tail)) == (if tail.len() == 0 {
            Some(ServerNameView { ip: address_of(a), hostname: None, port: None })
        } else if tail[0] == ':' && port_of(tail.skip(1)) is Some {
            Some(
                ServerNameView {
                    ip: address_of(a),
                    hostname: None,
                    port: port_of(tail.skip(1)),
                },
            )
        } else {
            None
        }),
{
    let r = a + seq![']'] + tail;
    let s = seq!['['] + r;
    lemma_split_at_bracket(a, tail);
    assert(s.skip(1) =~= r);
    assert(s[0] == '[');
    assert(name_parts(s) == bracketed_name(r)) by {
        reveal(name_parts);
    }
}

proof fn lemma_split_at_bracket(a: Seq<char>, tail: Seq<char>)
    requires
        !a.contains(']'),
    ensures
        split_once_at(a + seq![']'] + tail, ']') == Some((a, tail)),
{
    let s = a + seq![']'] + tail;
    s.index_of_first_ensures(']');
    assert(s[a.len() as int] == ']');
    let i = s.index_of_first(']')->0;
    if i < a.len() {
        assert(a[i] == ']');
    }
    assert(s.take(i) =~= a);
    assert(s.skip(i + 1) =~= tail);
}

/// How a bare name is resolved, in order: its delegation is looked up; without one,
/// its service record; without that, the deprecated one; without either it is the
/// name itself on port 8448. The request is for the name all along.
pub proof fn law_bare_names(policy: FederationPolicy, f: ResolveFacts, s: ResolveStep)
    requires
        is_resolve_step(policy, f, s),
        on_allow_list(policy, f.server_name@),
        name_parts(f.server_name@) == Some(
            ServerNameView { ip: None, hostname: Some(f.server_name@), port: None },
        ),
    ensures
        f.delegated is None ==> (s matches ResolveStep::LookupWellKnown { hostname } && hostname@
            == f.server_name@),
        f.delegated == Some(None::<String>) ==> ({
            let name = f.server_name@;
            let permitted = f.ips matches Some(ips) && ips_refusal(policy, name, ips@) is None;
            &&& f.srv is None ==> (s matches ResolveStep::LookupSrv { name: n } && n@
                == "_matrix-fed._tcp."@ + name)
            &&& (f.srv matches Some(None)) && f.legacy_srv is None ==> (
            s matches ResolveStep::LookupSrv { name: n } && n@ == "_matrix._tcp."@ + name)
            &&& (f.srv matches Some(Some((target, port))) && permitted) ==> (
            s matches ResolveStep::Found(r) && r.target_host@ == (f.srv->0->0).0@ && r.target_port
                == (f.srv->0->0).1 && r.tls_server_name@ == name && r.host_header@ == name
                && r.resolved_ips@ == f.ips->0@)
            &&& (f.srv matches Some(None)) && (f.legacy_srv matches Some(Some(_))) && permitted
                ==> (s matches ResolveStep::Found(r) && r.target_host@ == (f.legacy_srv->0->0).0@
                && r.target_port == (f.legacy_srv->0->0).1 && r.tls_server_name@ == name
                && r.host_header@ == name && r.resolved_ips@ == f.ips->0@)
            &&& (f.srv matches Some(None)) && (f.legacy_srv matches Some(None)) && permitted ==> (
            s matches ResolveStep::Found(r) && r.target_host@ == name && r.target_port == 8448
                && r.tls_server_name@ == name && r.host_header@ == name && r.resolved_ips@
                == f.ips->0@)
        }),
        (f.delegated matches Some(Some(d)) && name_parts(d@) == Some(
            ServerNameView { ip: None, hostname: Some(d@), port: None },
        )) && (f.srv matches Some(None)) && (f.legacy_srv matches Some(None)) && (
        f.ips matches Some(ips) && ips_refusal(policy, f.server_name@, ips@) is None) ==> (
        s matches ResolveStep::Found(r) && r.target_host@ == f.delegated->0->0@ && r.target_port
            == 8448 && r.tls_server_name@ == f.server_name@ && r.host_header@
            == f.delegated->0->0@),
{
}

/// A name with a port is not looked up in any other way: it is dialled on that port.
pub proof fn law_names_with_ports(
    policy: FederationPolicy,
    f: ResolveFacts,
    s: ResolveStep,
    host: Seq<char>,
    port: u16,
)
    requires
        is_resolve_step(policy, f, s),
        on_allow_list(policy, f.server_name@),
        name_parts(f.server_name@) == Some(
            ServerNameView { ip: None, hostname: Some(host), port: Some(port) },
        ),
    ensures
        f.ips is None ==> (s matches ResolveStep::LookupIps { host: h } && h@ == host),
        (f.ips matches Some(ips) && ips_refusal(policy, f.server_name@, ips@) is None) ==> (
        s matches ResolveStep::Found(r) && r.target_host@ == host && r.target_port == port
            && r.tls_server_name@ == host && r.host_header@ == f.server_name@ && r.resolved_ips@
            == f.ips->0@),
{
}

/// A name that is an address is dialled as it stands, on its port or 8448, unless
/// the policy refuses the address.
pub proof fn law_literal_names(
    policy: FederationPolicy,
    f: ResolveFacts,
    s: ResolveStep,
    ip: IpAddress,
    port: Option<u16>,
)
    requires
        is_resolve_step(policy, f, s),
        on_allow_list(policy, f.server_name@),
        name_parts(f.server_name@) == Some(
            ServerNameView { ip: Some(ip), hostname: None, port },
        ),
    ensures
        refuses(policy, f.server_name@, ip) ==> s is Failed,
        !refuses(policy, f.server_name@, ip) ==> (s matches ResolveStep::Found(r)
            && r.host_header@ == f.server_name@ && (port matches Some(p) ==> r.target_port == p)
            && (port is None ==> r.target_port == 8448)),
{
}

/// A server off the allow list is not reached, whatever its name.
pub proof fn law_allow_list(policy: FederationPolicy, f: ResolveFacts, s: ResolveStep)
    requires
        is_resolve_step(policy, f, s),
    ensures
        policy.allow_list@.len() > 0 && (forall|i: int|
            0 <= i < policy.allow_list@.len() ==> host_part((#[trigger] policy.allow_list@[i])@)
                != host_part(f.server_name@)) ==> s is Failed,
{
}

/// The addresses of a server are refused exactly if the block on private addresses
/// is on and one of them is not public, or there is none to check; the loopback
/// addresses of this very server are excepted.
pub proof fn law_refused_addresses(
    policy: FederationPolicy,
    server_name: Seq<char>,
    ips: Seq<IpAddress>,
)
    ensures
        ips_refusal(policy, server_name, ips) is Some <==> policy.private_ip_block && ({
            ||| ips.len() == 0 && !is_self(policy, server_name)
            ||| exists|i: int|
                0 <= i < ips.len() && blocked(#[trigger] ips[i]) && !(is_self(policy, server_name)
                    && loopback(ips[i]))
        }),
        is_self(policy, server_name) <==> policy.our_server_name@.len() > 0 && host_part(
            policy.our_server_name@,
        ) == host_part(server_name),
    decreases ips.len(),
{
    if ips.len() > 0 {
        let rest = ips.drop_first();
        lemma_first_refused(policy, server_name, ips);
    }
}

proof fn lemma_first_refused(
    policy: FederationPolicy,
    server_name: Seq<char>,
    ips: Seq<IpAddress>,
)
    ensures
        first_refused(policy, server_name, ips) is Some <==> exists|i: int|
            0 <= i < ips.len() && refuses(policy, server_name, #[trigger] ips[i]),
    decreases ips.len(),
{
    if ips.len() > 0 {
        let rest = ips.drop_first();
        lemma_first_refused(policy, server_name, rest);
        if refuses(policy, server_name, ips[0]) {
            assert(refuses(policy, server_name, ips[0]));
        } else {
            if exists|i: int| 0 <= i < ips.len() && refuses(policy, server_name, #[trigger] ips[i]) {
                let i = choose|i: int|
                    0 <= i < ips.len() && refuses(policy, server_name, #[trigger] ips[i]);
                assert(rest[i - 1] == ips[i]);
            }
            if exists|i: int|
                0 <= i < rest.len() && refuses(policy, server_name, #[trigger] rest[i]) {
                let i = choose|i: int|
                    0 <= i < rest.len() && refuses(policy, server_name, #[trigger] rest[i]);
                assert(ips[i + 1] == rest[i]);
            }
        }
    }
}

/// The age that a cache header states is that of its first directive about it.
pub proof fn law_max_age(directives: Seq<Seq<char>>)
    ensures
        match max_age(directives) {
            Some(n) => exists|i: int|
                0 <= i < directives.len() && max_age_directive(#[trigger] directives[i]) == Some(
                    Some(n),
                ) && forall|j: int|
                    0 <= j < i ==> max_age_directive(#[trigger] directives[j]) is None,
            None => (forall|j: int|
                0 <= j < directives.len() ==> max_age_directive(#[trigger] directives[j]) is None)
                || exists|i: int|
                0 <= i < directives.len() && max_age_directive(#[trigger] directives[i]) == Some(
                    None::<u64>,
                ) && forall|j: int|
                    0 <= j < i ==> max_age_directive(#[trigger] directives[j]) is None,
        },
    decreases directives.len(),
{
    if directives.len() > 0 {
        if let Some(_) = max_age_directive(directives[0]) {
            assert(max_age_directive(directives[0]) == Some(max_age(directives)));
        } else {
            let rest = directives.drop_first();
            law_max_age(rest);
            assert forall|j: int| 0 <= j < rest.len() implies rest[j] == #[trigger] directives[j
                + 1] by {}
            if forall|j: int|
                0 <= j < rest.len() ==> max_age_directive(#[trigger] rest[j]) is None {
                assert forall|j: int| 0 <= j < directives.len() implies max_age_directive(
                    #[trigger] directives[j],
                ) is None by {
                    if j > 0 {
                        assert(rest[j - 1] == directives[j]);
                    }
                }
                if let Some(n) = max_age(rest) {
                    let i = choose|i: int|
                        0 <= i < rest.len() && max_age_directive(#[trigger] rest[i]) == Some(
                            Some(n),
                        );
                    assert(max_age_directive(rest[i]) is None);
                }
            } else {
                let i = choose|i: int|
                    0 <= i < rest.len() && max_age_directive(#[trigger] rest[i]) == Some(
                        max_age(rest),
                    ) && forall|j: int|
                        0 <= j < i ==> max_age_directive(#[trigger] rest[j]) is None;
                assert(directives[i + 1] == rest[i]);
                assert forall|j: int| 0 <= j < i + 1 implies max_age_directive(
                    #[trigger] directives[j],
                ) is None by {
                    if j > 0 {
                        assert(rest[j - 1] == directives[j]);
                    }
                }
            }
        }
    }
}

/// A delegation is remembered for as long as it says, two days at most, and for a
/// day if it says nothing; the lack of one for an hour.
pub proof fn law_delegation_lifetimes(reply: WellKnownReply)
    ensures
        delegation(reply) is None ==> remembered_for(reply) == 3_600_000,
        (delegation(reply) is Some && (reply matches WellKnownReply::Answered {
            cache_control: None,
            ..
        })) ==> remembered_for(reply) == 86_400_000,
        delegation(reply) is Some ==> (reply matches WellKnownReply::Answered {
            cache_control: Some(c),
            ..
        } ==> match max_age(pieces(c@, ',')) {
            Some(n) => remembered_for(reply) <= n * 1000 && remembered_for(reply) <= 172_800_000 && (
            remembered_for(reply) == n * 1000 || remembered_for(reply) == 172_800_000),
            None => remembered_for(reply) == 86_400_000,
        }),
        delegation(reply) matches Some(d) ==> d.len() > 0 && (
        reply matches WellKnownReply::Answered { delegated: Some(x), .. } && x@ == d),
{
}

/// The record that is used is one of the lowest priority, of the highest weight
/// among those, and the first of several such; there is exactly one.
pub proof fn law_service_records(v: Seq<SrvRecord>, i: int, j: int)
    requires
        is_first_srv(v, i),
        0 <= j < v.len(),
    ensures
        v[i].priority <= v[j].priority,
        v[j].priority == v[i].priority ==> v[j].weight <= v[i].weight,
        v[j].priority == v[i].priority && v[j].weight == v[i].weight ==> i <= j,
        is_first_srv(v, j) ==> i == j,
{
    assert(!srv_before(v[j], v[i]));
    if j < i {
        assert(srv_before(v[i], v[j]));
    }
    if is_first_srv(v, j) {
        assert(!srv_before(v[i], v[j]));
        if i < j {
            assert(srv_before(v[j], v[i]));
        }
    }
}

/// A name loses the dots at its end and nothing else.
pub proof fn law_without_dots(s: Seq<char>)
    ensures
        without_dots(s).is_prefix_of(s),
        without_dots(s).len() > 0 ==> without_dots(s).last() != '.',
        forall|i: int| without_dots(s).len() <= i < s.len() ==> #[trigger] s[i] == '.',
    decreases s.len(),
{
    if s.len() > 0 && s.last() == '.' {
        let front = s.drop_last();
        law_without_dots(front);
        assert forall|i: int| without_dots(s).len() <= i < s.len() implies #[trigger] s[i] == '.' by {
            if i < front.len() {
                assert(front[i] == s[i]);
            }
        }
    }
}

} // verus!
