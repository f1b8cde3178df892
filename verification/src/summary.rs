//! Summarising what a capture showed: which hosts offer, and which sessions
//! use, post-quantum key exchange, by SSH method and by TLS group.

use vstd::prelude::*;
use crate::names::SortedNames;
use crate::capture::{CaptureState, CaptureView};
use crate::endpoint::{split_endpoint, split_endpoint_text};
use crate::ip::ip_text;
use crate::ssh::{FlowKey, HostCapabilities, SshSession};
use crate::tls::TlsSessionKey;
use crate::table::{SameKey, Table, DistinctSet, IdSet};
use crate::text::strings_view;

verus! {

/// The verdict on a host or session that supports post-quantum key exchange.
pub const PQC_SUPPORTED: &'static str = "PQC Supported";

/// What is known of an SSH key exchange method.
pub struct KexAlgo {
    pub pqc: bool,
    pub broken: bool,
    pub hybrid: Option<bool>,
    pub desc: Option<String>,
    pub href: Option<String>,
}

/// A method's post-quantum flag, broken flag, hybrid flag, description and
/// link.
pub type KexView = (bool, bool, Option<bool>, Option<Seq<char>>, Option<Seq<char>>);

/// The view of an optional string.
pub open spec fn opt_text_view(o: Option<String>) -> Option<Seq<char>> {
    match o {
        Some(s) => Some(s@),
        None => None,
    }
}

impl View for KexAlgo {
    type V = KexView;

    open spec fn view(&self) -> KexView {
        (self.pqc, self.broken, self.hybrid, opt_text_view(self.desc), opt_text_view(self.href))
    }
}

/// A key exchange method or group as a report lists it.
pub struct AlgorithmDetails {
    pub name: String,
    pub description: String,
    pub pqc_status: String,
    pub link: String,
}

/// Name, description, verdict and link.
pub type DetailView = (Seq<char>, Seq<char>, Seq<char>, Seq<char>);

impl View for AlgorithmDetails {
    type V = DetailView;

    open spec fn view(&self) -> DetailView {
        (self.name@, self.description@, self.pqc_status@, self.link@)
    }
}

impl AlgorithmDetails {
    /// Details of one method or group.
    pub fn new(name: String, description: String, pqc_status: String, link: String) -> (d: Self)
        ensures
            d@ == (name@, description@, pqc_status@, link@),
    {
        Self { name, description, pqc_status, link }
    }
}

impl SameKey for AlgorithmDetails {
    fn same_key(&self, other: &Self) -> (b: bool) {
        self.name == other.name && self.description == other.description && self.pqc_status
            == other.pqc_status && self.link == other.link
    }
}

/// The key exchange of one observed session.
pub struct SessionResult {
    pub source: String,
    pub source_port: u16,
    pub destination: String,
    pub destination_port: u16,
    pub algorithm: String,
    pub pqc_status: String,
}

/// Source address and port, destination address and port, method or group,
/// verdict.
pub type SessionView = (Seq<char>, u16, Seq<char>, u16, Seq<char>, Seq<char>);

impl View for SessionResult {
    type V = SessionView;

    open spec fn view(&self) -> SessionView {
        (
            self.source@,
            self.source_port,
            self.destination@,
            self.destination_port,
            self.algorithm@,
            self.pqc_status@,
        )
    }
}

impl SessionResult {
    /// The result of one session.
    pub fn new(
        source: String,
        source_port: u16,
        destination: String,
        port: u16,
        algorithm: String,
        pqc_status: String,
    ) -> (r: Self)
        ensures
            r@ == (source@, source_port, destination@, port, algorithm@, pqc_status@),
    {
        Self { source, source_port, destination_port: port, destination, algorithm, pqc_status }
    }
}

impl SameKey for SessionResult {
    fn same_key(&self, other: &Self) -> (b: bool) {
        self.source_port == other.source_port && self.destination_port == other.destination_port
            && self.source == other.source && self.destination == other.destination
            && self.algorithm == other.algorithm && self.pqc_status == other.pqc_status
    }
}

/// The method is a hybrid of a classical and a post-quantum exchange.
pub open spec fn kex_hybrid(a: KexView) -> bool {
    a.2 == Some(true)
}

/// The method resists quantum attack, alone or as a hybrid.
pub open spec fn kex_pqc_safe(a: KexView) -> bool {
    a.0 || kex_hybrid(a)
}

/// The verdict on a method a host advertises: hybrid first, then pure
/// post-quantum, else not safe.
pub open spec fn kex_capability_status(a: KexView) -> Seq<char> {
    if kex_hybrid(a) {
        "Hybrid"@
    } else if a.0 {
        PQC_SUPPORTED@
    } else {
        "Not PQC Safe"@
    }
}

/// The text, or `-` when there is none.
pub open spec fn or_dash(o: Option<Seq<char>>) -> Seq<char> {
    match o {
        Some(s) => s,
        None => "-"@,
    }
}

/// How a report lists an advertised method.
pub open spec fn kex_details(name: Seq<char>, a: KexView) -> DetailView {
    (name, or_dash(a.3), kex_capability_status(a), or_dash(a.4))
}

/// The details of the known methods among `ms`.
pub open spec fn host_kex_details(ms: Seq<Seq<char>>, kex: Map<Seq<char>, KexView>) -> Set<DetailView> {
    Set::new(
        |d: DetailView|
            exists|i: int|
                0 <= i < ms.len() && kex.contains_key(#[trigger] ms[i]) && d == kex_details(
                    ms[i],
                    kex[ms[i]],
                ),
    )
}

/// Some known method among `ms` resists quantum attack.
pub open spec fn host_kex_pqc(ms: Seq<Seq<char>>, kex: Map<Seq<char>, KexView>) -> bool {
    exists|i: int| 0 <= i < ms.len() && kex.contains_key(#[trigger] ms[i]) && kex_pqc_safe(kex[ms[i]])
}

/// `PQC Supported` or `No Support`.
pub open spec fn support_text(b: bool) -> Seq<char> {
    if b {
        PQC_SUPPORTED@
    } else {
        "No Support"@
    }
}

fn text_or_dash(o: &Option<String>) -> (s: String)
    ensures
        s@ == or_dash(opt_text_view(*o)),
{
    match o {
        Some(t) => t.clone(),
        None => "-".to_owned(),
    }
}

fn capability_status(a: &KexAlgo) -> (s: String)
    ensures
        s@ == kex_capability_status(a@),
{
    let hybrid = match a.hybrid {
        Some(h) => h,
        None => false,
    };
    if hybrid {
        "Hybrid".to_owned()
    } else if a.pqc {
        PQC_SUPPORTED.to_owned()
    } else {
        "Not PQC Safe".to_owned()
    }
}

proof fn lemma_host_kex_step(ms: Seq<Seq<char>>, kex: Map<Seq<char>, KexView>, i: int)
    requires
        0 <= i < ms.len(),
    ensures
        host_kex_details(ms.take(i + 1), kex) == (if kex.contains_key(ms[i]) {
            host_kex_details(ms.take(i), kex).insert(kex_details(ms[i], kex[ms[i]]))
        } else {
            host_kex_details(ms.take(i), kex)
        }),
        host_kex_pqc(ms.take(i + 1), kex) == (host_kex_pqc(ms.take(i), kex) || (kex.contains_key(
            ms[i],
        ) && kex_pqc_safe(kex[ms[i]]))),
{
    let a = ms.take(i);
    let b = ms.take(i + 1);
    assert forall|j: int| 0 <= j < i implies b[j] == a[j] by {}
    assert(b[i] == ms[i]);
    let rhs = if kex.contains_key(ms[i]) {
        host_kex_details(a, kex).insert(kex_details(ms[i], kex[ms[i]]))
    } else {
        host_kex_details(a, kex)
    };
    assert forall|d: DetailView| host_kex_details(b, kex).contains(d) <==> rhs.contains(d) by {
        if host_kex_details(b, kex).contains(d) {
            let j = choose|j: int|
                0 <= j < b.len() && kex.contains_key(#[trigger] b[j]) && d == kex_details(
                    b[j],
                    kex[b[j]],
                );
            if j < i {
                assert(a[j] == b[j]);
            }
        }
        if host_kex_details(a, kex).contains(d) {
            let j = choose|j: int|
                0 <= j < a.len() && kex.contains_key(#[trigger] a[j]) && d == kex_details(
                    a[j],
                    kex[a[j]],
                );
            assert(b[j] == a[j]);
        }
    }
    assert(host_kex_details(b, kex) =~= rhs);
    if host_kex_pqc(b, kex) {
        let j = choose|j: int|
            0 <= j < b.len() && kex.contains_key(#[trigger] b[j]) && kex_pqc_safe(kex[b[j]]);
        if j < i {
            assert(a[j] == b[j]);
        }
    }
    if host_kex_pqc(a, kex) {
        let j = choose|j: int|
            0 <= j < a.len() && kex.contains_key(#[trigger] a[j]) && kex_pqc_safe(kex[a[j]]);
        assert(b[j] == a[j]);
    }
}

/// The details of the known methods a host advertises, and whether one of
/// them resists quantum attack.
fn host_kex_summary(methods: &Vec<String>, kex: &Table<String, KexAlgo>) -> (r: (
    DistinctSet<AlgorithmDetails>,
    bool,
))
    ensures
        r.0@ == host_kex_details(strings_view(methods@), kex@),
        r.1 == host_kex_pqc(strings_view(methods@), kex@),
{
    let ghost ms = strings_view(methods@);
    let mut details: DistinctSet<AlgorithmDetails> = DistinctSet::new();
    let mut pqc = false;
    let mut i: usize = 0;
    assert(host_kex_details(ms.take(0), kex@) =~= Set::<DetailView>::empty());
    while i < methods.len()
        invariant
            ms == strings_view(methods@),
            i <= methods@.len(),
            details@ == host_kex_details(ms.take(i as int), kex@),
            pqc == host_kex_pqc(ms.take(i as int), kex@),
        decreases methods@.len() - i,
    {
        proof {
            lemma_host_kex_step(ms, kex@, i as int);
        }
        let name = &methods[i];
        assert(name@ == ms[i as int]);
        match kex.get(name) {
            Some(algo) => {
                if algo.pqc || algo.hybrid == Some(true) {
                    pqc = true;
                }
                let d = AlgorithmDetails::new(
                    name.clone(),
                    text_or_dash(&algo.desc),
                    capability_status(algo),
                    text_or_dash(&algo.href),
                );
                details.insert(d);
            },
            None => {},
        }
        i = i + 1;
    }
    assert(ms.take(methods@.len() as int) =~= ms);
    (details, pqc)
}

/// The hosts, among those that advertised methods, with a known method that
/// resists quantum attack.
pub open spec fn ssh_pqc_hosts(caps: Map<Seq<char>, Seq<Seq<char>>>, kex: Map<Seq<char>, KexView>) -> Set<Seq<char>> {
    caps.dom().filter(|h: Seq<char>| host_kex_pqc(caps[h], kex))
}

/// Each host's known advertised methods as a report lists them.
pub open spec fn ssh_capabilities(caps: Map<Seq<char>, Seq<Seq<char>>>, kex: Map<Seq<char>, KexView>) -> Map<Seq<char>, Set<DetailView>> {
    Map::new(|h: Seq<char>| caps.contains_key(h), |h: Seq<char>| host_kex_details(caps[h], kex))
}

/// Each host's verdict.
pub open spec fn ssh_verdicts(caps: Map<Seq<char>, Seq<Seq<char>>>, kex: Map<Seq<char>, KexView>) -> Map<Seq<char>, Seq<char>> {
    Map::new(|h: Seq<char>| caps.contains_key(h), |h: Seq<char>| support_text(host_kex_pqc(caps[h], kex)))
}

proof fn lemma_take_step<A>(s: Seq<A>, i: int)
    requires
        0 <= i < s.len(),
    ensures
        s.take(i + 1) == s.take(i).push(s[i]),
        s.take(i + 1).to_set() == s.take(i).to_set().insert(s[i]),
{
    assert(s.take(i + 1) =~= s.take(i).push(s[i]));
    s.take(i).lemma_push_to_set_commute(s[i]);
}

proof fn lemma_take_all<A>(s: Seq<A>)
    ensures
        s.take(s.len() as int) == s,
{
    assert(s.take(s.len() as int) =~= s);
}

/// The SSH hosts, those of them offering post-quantum exchange, each host's
/// known methods and each host's verdict.
fn ssh_host_part(caps: &Table<String, HostCapabilities>, kex: &Table<String, KexAlgo>) -> (r: (
    SortedNames,
    SortedNames,
    Table<String, DistinctSet<AlgorithmDetails>>,
    Table<String, String>,
))
    ensures
        r.0@ == caps@.dom(),
        r.1@ == ssh_pqc_hosts(caps@, kex@),
        r.2@ == ssh_capabilities(caps@, kex@),
        r.3@ == ssh_verdicts(caps@, kex@),
{
    let ghost order = caps.key_order();
    let ghost cm = caps@;
    let ghost km = kex@;
    let n = caps.len();
    let mut hosts = SortedNames::new();
    let mut pqc_hosts = SortedNames::new();
    let mut details: Table<String, DistinctSet<AlgorithmDetails>> = Table::new();
    let mut verdicts: Table<String, String> = Table::new();
    let mut i: usize = 0;
    assert(order.take(0).to_set() =~= Set::<Seq<char>>::empty());
    assert(Map::new(
        |h: Seq<char>| order.take(0).to_set().contains(h),
        |h: Seq<char>| host_kex_details(cm[h], km),
    ) =~= Map::<Seq<char>, Set<DetailView>>::empty());
    assert(Map::new(
        |h: Seq<char>| order.take(0).to_set().contains(h),
        |h: Seq<char>| support_text(host_kex_pqc(cm[h], km)),
    ) =~= Map::<Seq<char>, Seq<char>>::empty());
    assert(order.take(0).to_set().filter(|h: Seq<char>| host_kex_pqc(cm[h], km)) =~= Set::<
        Seq<char>,
    >::empty());
    while i < n
        invariant
            n == order.len(),
            order == caps.key_order(),
            cm == caps@,
            km == kex@,
            order.no_duplicates(),
            forall|k: Seq<char>| cm.contains_key(k) <==> order.contains(k),
            i <= n,
            hosts@ == order.take(i as int).to_set(),
            pqc_hosts@ == order.take(i as int).to_set().filter(
                |h: Seq<char>| host_kex_pqc(cm[h], km),
            ),
            details@ == Map::new(
                |h: Seq<char>| order.take(i as int).to_set().contains(h),
                |h: Seq<char>| host_kex_details(cm[h], km),
            ),
            verdicts@ == Map::new(
                |h: Seq<char>| order.take(i as int).to_set().contains(h),
                |h: Seq<char>| support_text(host_kex_pqc(cm[h], km)),
            ),
        decreases n - i,
    {
        let (host, host_caps) = caps.entry_at(i);
        let ghost h = host@;
        proof {
            lemma_take_step(order, i as int);
        }
        let methods = host_caps.supported_kex_names();
        let (set, pqc) = host_kex_summary(&methods, kex);
        hosts.insert(host.clone());
        if pqc {
            pqc_hosts.insert(host.clone());
        }
        details.put(host.clone(), set);
        let verdict = if pqc {
            PQC_SUPPORTED.to_owned()
        } else {
            "No Support".to_owned()
        };
        verdicts.put(host.clone(), verdict);
        proof {
            let t0 = order.take(i as int).to_set();
            let t1 = order.take(i + 1).to_set();
            assert(t1 == t0.insert(h));
            assert(pqc_hosts@ =~= t1.filter(|x: Seq<char>| host_kex_pqc(cm[x], km)));
            assert(details@ =~= Map::new(
                |x: Seq<char>| t1.contains(x),
                |x: Seq<char>| host_kex_details(cm[x], km),
            ));
            assert(verdicts@ =~= Map::new(
                |x: Seq<char>| t1.contains(x),
                |x: Seq<char>| support_text(host_kex_pqc(cm[x], km)),
            ));
        }
        i = i + 1;
    }
    proof {
        lemma_take_all(order);
        assert(order.to_set() =~= cm.dom());
        assert(details@ =~= ssh_capabilities(cm, km));
        assert(verdicts@ =~= ssh_verdicts(cm, km));
        assert(pqc_hosts@ =~= ssh_pqc_hosts(cm, km));
    }
    (hosts, pqc_hosts, details, verdicts)
}

/// The endpoints of an SSH connection, as `address:port` text.
pub type FlowView = (Seq<char>, Seq<char>);

/// The KEXINITs of both sides of a connection and its negotiated method.
pub type SshSessionView = (Option<Seq<Seq<char>>>, Option<Seq<Seq<char>>>, Option<Seq<char>>);

/// Why a capture could not be summarised.
#[derive(Clone, Copy, Debug, PartialEq, Eq, Structural)]
pub enum SummaryError {
    /// An endpoint does not read as `address:port`.
    UnreadableEndpoint,
}

/// The verdict on a session's negotiated method: pure post-quantum first,
/// then hybrid, else not supported.
pub open spec fn ssh_session_status(a: KexView) -> Seq<char> {
    if a.0 {
        PQC_SUPPORTED@
    } else if kex_hybrid(a) {
        "Hybrid"@
    } else {
        "NOT Supported"@
    }
}

/// The negotiated method of a connection of the table, if it has one.
pub open spec fn negotiated_kex(sessions: Map<FlowView, SshSessionView>, f: FlowView) -> Option<Seq<char>> {
    if sessions.contains_key(f) {
        sessions[f].2
    } else {
        None
    }
}

/// Both endpoints of a connection read as address and port.
pub open spec fn flow_readable(f: FlowView) -> bool {
    split_endpoint(f.0) is Some && split_endpoint(f.1) is Some
}

/// Every connection with a negotiated method has readable endpoints.
pub open spec fn ssh_sessions_readable(sessions: Map<FlowView, SshSessionView>) -> bool {
    forall|f: FlowView| #[trigger] negotiated_kex(sessions, f) is Some ==> flow_readable(f)
}

/// The source address of a connection.
pub open spec fn flow_source(f: FlowView) -> Seq<char> {
    (split_endpoint(f.0)->0).0
}

/// How a report lists a connection that negotiated the known method `k`.
pub open spec fn ssh_session_result(f: FlowView, k: Seq<char>, a: KexView) -> SessionView {
    let s = split_endpoint(f.0)->0;
    let d = split_endpoint(f.1)->0;
    (s.0, s.1, d.0, d.1, k, ssh_session_status(a))
}

/// A connection negotiated a known method that is purely post-quantum.
pub open spec fn ssh_session_pqc(sessions: Map<FlowView, SshSessionView>, kex: Map<Seq<char>, KexView>, f: FlowView) -> bool {
    negotiated_kex(sessions, f) matches Some(k) && kex.contains_key(k) && kex[k].0
}

/// The source addresses of the connections among the first `n` of `order`
/// that negotiated a method.
pub open spec fn session_sources_upto(order: Seq<FlowView>, sessions: Map<FlowView, SshSessionView>, n: int) -> Set<Seq<char>> {
    Set::new(
        |ip: Seq<char>|
            exists|j: int|
                0 <= j < n && negotiated_kex(sessions, #[trigger] order[j]) is Some && flow_source(
                    order[j],
                ) == ip,
    )
}

/// The results of the connections from `ip` among the first `n` of `order`
/// that negotiated a known method.
pub open spec fn session_results_upto(
    order: Seq<FlowView>,
    sessions: Map<FlowView, SshSessionView>,
    kex: Map<Seq<char>, KexView>,
    n: int,
    ip: Seq<char>,
) -> Set<SessionView> {
    Set::new(
        |r: SessionView|
            exists|j: int|
                0 <= j < n && (negotiated_kex(sessions, #[trigger] order[j]) matches Some(k)
                    && flow_source(order[j]) == ip && kex.contains_key(k) && r
                    == ssh_session_result(order[j], k, kex[k])),
    )
}

/// For each source address of a connection that negotiated a method, the
/// results of its connections that negotiated a known one.
pub open spec fn ssh_session_results(sessions: Map<FlowView, SshSessionView>, kex: Map<Seq<char>, KexView>) -> Map<Seq<char>, Set<SessionView>> {
    Map::new(
        |ip: Seq<char>|
            exists|f: FlowView| #[trigger] negotiated_kex(sessions, f) is Some && flow_source(f) == ip,
        |ip: Seq<char>|
            Set::new(
                |r: SessionView|
                    exists|f: FlowView|
                        #[trigger] negotiated_kex(sessions, f) matches Some(k) && flow_source(f) == ip
                            && kex.contains_key(k) && r == ssh_session_result(f, k, kex[k]),
            ),
    )
}

/// The results from `ip` after the connection `f` is added to them.
pub open spec fn session_results_after(
    prev: Set<SessionView>,
    sessions: Map<FlowView, SshSessionView>,
    kex: Map<Seq<char>, KexView>,
    f: FlowView,
    ip: Seq<char>,
) -> Set<SessionView> {
    match negotiated_kex(sessions, f) {
        Some(k) => if flow_source(f) == ip && kex.contains_key(k) {
            prev.insert(ssh_session_result(f, k, kex[k]))
        } else {
            prev
        },
        None => prev,
    }
}

proof fn lemma_session_step(
    order: Seq<FlowView>,
    sessions: Map<FlowView, SshSessionView>,
    kex: Map<Seq<char>, KexView>,
    n: int,
)
    requires
        0 <= n < order.len(),
    ensures
        session_sources_upto(order, sessions, n + 1) == (if negotiated_kex(sessions, order[n]) is Some {
            session_sources_upto(order, sessions, n).insert(flow_source(order[n]))
        } else {
            session_sources_upto(order, sessions, n)
        }),
        forall|ip: Seq<char>|
            #[trigger] session_results_upto(order, sessions, kex, n + 1, ip) == session_results_after(
                session_results_upto(order, sessions, kex, n, ip),
                sessions,
                kex,
                order[n],
                ip,
            ),
{
    let a = session_sources_upto(order, sessions, n);
    let b = session_sources_upto(order, sessions, n + 1);
    let rhs = if negotiated_kex(sessions, order[n]) is Some {
        a.insert(flow_source(order[n]))
    } else {
        a
    };
    assert forall|ip: Seq<char>| b.contains(ip) <==> rhs.contains(ip) by {
        if b.contains(ip) {
            let j = choose|j: int|
                0 <= j < n + 1 && negotiated_kex(sessions, #[trigger] order[j]) is Some
                    && flow_source(order[j]) == ip;
        }
    }
    assert(b =~= rhs);
    assert forall|ip: Seq<char>|
        #[trigger] session_results_upto(order, sessions, kex, n + 1, ip) == session_results_after(
            session_results_upto(order, sessions, kex, n, ip),
            sessions,
            kex,
            order[n],
            ip,
        ) by {
        let x = session_results_upto(order, sessions, kex, n, ip);
        let y = session_results_upto(order, sessions, kex, n + 1, ip);
        let z = session_results_after(x, sessions, kex, order[n], ip);
        assert forall|r: SessionView| y.contains(r) <==> z.contains(r) by {
            if y.contains(r) {
                let j = choose|j: int|
                    0 <= j < n + 1 && (negotiated_kex(sessions, #[trigger] order[j]) matches Some(
                        k,
                    ) && flow_source(order[j]) == ip && kex.contains_key(k) && r
                        == ssh_session_result(order[j], k, kex[k]));
            }
        }
        assert(y =~= z);
    }
}

/// For each source address of a connection with a negotiated method, the
/// results of its connections whose method is known, and the number of
/// connections that negotiated a known purely post-quantum method; an
/// error when a connection with a negotiated method has an unreadable
/// endpoint.
fn ssh_session_part(sessions: &Table<FlowKey, SshSession>, kex: &Table<String, KexAlgo>) -> (r: Result<
    (Table<String, DistinctSet<SessionResult>>, usize),
    SummaryError,
>)
    ensures
        r is Ok <==> ssh_sessions_readable(sessions@),
        r matches Ok((results, count)) ==> results@ == ssh_session_results(sessions@, kex@)
            && count == sessions.key_order().filter(|f: FlowView| ssh_session_pqc(sessions@, kex@, f)).len(),
{
    let ghost order = sessions.key_order();
    let ghost sm = sessions@;
    let ghost km = kex@;
    let n = sessions.len();
    let mut results: Table<String, DistinctSet<SessionResult>> = Table::new();
    let mut count: usize = 0;
    let mut i: usize = 0;
    assert(session_sources_upto(order, sm, 0) =~= Set::<Seq<char>>::empty());
    assert(results@ =~= Map::new(
        |ip: Seq<char>| session_sources_upto(order, sm, 0).contains(ip),
        |ip: Seq<char>| session_results_upto(order, sm, km, 0, ip),
    ));
    assert(order.take(0).filter(|f: FlowView| ssh_session_pqc(sm, km, f)) =~= Seq::<FlowView>::empty());
    while i < n
        invariant
            n == order.len(),
            order == sessions.key_order(),
            sm == sessions@,
            km == kex@,
            order.no_duplicates(),
            forall|k: FlowView| sm.contains_key(k) <==> order.contains(k),
            i <= n,
            forall|j: int| 0 <= j < i ==> negotiated_kex(sm, #[trigger] order[j]) is Some ==> flow_readable(order[j]),
            results@ == Map::new(
                |ip: Seq<char>| session_sources_upto(order, sm, i as int).contains(ip),
                |ip: Seq<char>| session_results_upto(order, sm, km, i as int, ip),
            ),
            count == order.take(i as int).filter(|f: FlowView| ssh_session_pqc(sm, km, f)).len(),
            count <= i,
        decreases n - i,
    {
        let (flow, session) = sessions.entry_at(i);
        let ghost f = flow@;
        proof {
            lemma_session_step(order, sm, km, i as int);
            lemma_take_step(order, i as int);
            assert(order.take(i + 1).drop_last() =~= order.take(i as int));
            reveal_with_fuel(Seq::filter, 1);
            assert(negotiated_kex(sm, f) == sm[f].2);
        }
        match session.negotiated() {
            Some(neg) => {
                let src = match split_endpoint_text(flow.src()) {
                    Some(e) => e,
                    None => {
                        assert(!ssh_sessions_readable(sm));
                        return Err(SummaryError::UnreadableEndpoint);
                    },
                };
                let dst = match split_endpoint_text(flow.dst()) {
                    Some(e) => e,
                    None => {
                        assert(!ssh_sessions_readable(sm));
                        return Err(SummaryError::UnreadableEndpoint);
                    },
                };
                let (source_ip, source_port) = src;
                let (destination_ip, destination_port) = dst;
                let ghost ipv = source_ip@;
                let ghost kv = neg@;
                proof {
                    assert(flow_source(f) == ipv);
                    assert(negotiated_kex(sm, f) == Some(kv));
                    if !session_sources_upto(order, sm, i as int).contains(ipv) {
                        assert forall|r: SessionView| !session_results_upto(order, sm, km, i as int, ipv).contains(r) by {
                            if session_results_upto(order, sm, km, i as int, ipv).contains(r) {
                                let j = choose|j: int|
                                    0 <= j < i && (negotiated_kex(sm, #[trigger] order[j]) matches Some(k)
                                        && flow_source(order[j]) == ipv && km.contains_key(k) && r
                                        == ssh_session_result(order[j], k, km[k]));
                                assert(session_sources_upto(order, sm, i as int).contains(ipv));
                            }
                        }
                        assert(session_results_upto(order, sm, km, i as int, ipv) =~= Set::<SessionView>::empty());
                    }
                }
                let mut set = match results.replace(source_ip.clone(), DistinctSet::new()) {
                    Some(s) => s,
                    None => DistinctSet::new(),
                };
                assert(set@ == session_results_upto(order, sm, km, i as int, ipv));
                let name = neg.kex().to_owned();
                match kex.get(&name) {
                    Some(algo) => {
                        let hybrid = match algo.hybrid {
                            Some(h) => h,
                            None => false,
                        };
                        let status = if algo.pqc {
                            PQC_SUPPORTED.to_owned()
                        } else if hybrid {
                            "Hybrid".to_owned()
                        } else {
                            "NOT Supported".to_owned()
                        };
                        if algo.pqc {
                            count = count + 1;
                        }
                        let res = SessionResult::new(
                            source_ip.clone(),
                            source_port,
                            destination_ip,
                            destination_port,
                            name.clone(),
                            status,
                        );
                        assert(res@ == ssh_session_result(f, kv, km[kv]));
                        set.insert(res);
                    },
                    None => {},
                }
                assert(set@ == session_results_upto(order, sm, km, i + 1, ipv));
                results.put(source_ip, set);
                proof {
                    assert(results@ =~= Map::new(
                        |ip: Seq<char>| session_sources_upto(order, sm, i + 1).contains(ip),
                        |ip: Seq<char>| session_results_upto(order, sm, km, i + 1, ip),
                    ));
                }
            },
            None => {
                proof {
                    assert(results@ =~= Map::new(
                        |ip: Seq<char>| session_sources_upto(order, sm, i + 1).contains(ip),
                        |ip: Seq<char>| session_results_upto(order, sm, km, i + 1, ip),
                    ));
                }
            },
        }
        i = i + 1;
    }
    proof {
        lemma_take_all(order);
        assert forall|f: FlowView| #[trigger] negotiated_kex(sm, f) is Some implies flow_readable(f) by {
            assert(sm.contains_key(f));
            assert(order.contains(f));
            let j = choose|j: int| 0 <= j < order.len() && order[j] == f;
        }
        let spec_map = ssh_session_results(sm, km);
        assert forall|ip: Seq<char>| session_sources_upto(order, sm, n as int).contains(ip) <==> spec_map.contains_key(ip) by {
            if spec_map.contains_key(ip) {
                let f = choose|f: FlowView| #[trigger] negotiated_kex(sm, f) is Some && flow_source(f) == ip;
                assert(sm.contains_key(f));
                assert(order.contains(f));
                let j = choose|j: int| 0 <= j < order.len() && order[j] == f;
            }
        }
        assert forall|ip: Seq<char>| spec_map.contains_key(ip) implies session_results_upto(order, sm, km, n as int, ip) == spec_map[ip] by {
            let x = session_results_upto(order, sm, km, n as int, ip);
            let y = spec_map[ip];
            assert forall|r: SessionView| x.contains(r) <==> y.contains(r) by {
                if y.contains(r) {
                    let f = choose|f: FlowView|
                        #[trigger] negotiated_kex(sm, f) matches Some(k) && flow_source(f) == ip
                            && km.contains_key(k) && r == ssh_session_result(f, k, km[k]);
                    assert(sm.contains_key(f));
                    assert(order.contains(f));
                    let j = choose|j: int| 0 <= j < order.len() && order[j] == f;
                }
            }
            assert(x =~= y);
        }
        assert(results@ =~= spec_map);
    }
    Ok((results, count))
}

/// What is known of a TLS key-share group.
pub struct TlsGroup {
    pub name: String,
    pub group_id: u16,
    pub pqc: bool,
    pub hybrid: bool,
    pub obsolete: bool,
    pub insecure: bool,
    pub desc: String,
    pub href: String,
}

/// Name, identifier, post-quantum, hybrid, obsolete and insecure flags,
/// description and link.
pub type GroupView = (Seq<char>, u16, bool, bool, bool, bool, Seq<char>, Seq<char>);

impl View for TlsGroup {
    type V = GroupView;

    open spec fn view(&self) -> GroupView {
        (
            self.name@,
            self.group_id,
            self.pqc,
            self.hybrid,
            self.obsolete,
            self.insecure,
            self.desc@,
            self.href@,
        )
    }
}

/// What is known of a TLS cipher suite.
pub struct TlsCipherSuite {
    pub name: String,
    pub cipher_suite_id: u16,
    pub obsolete: bool,
    pub insecure: bool,
    pub desc: String,
    pub href: String,
}

/// Name, identifier, obsolete and insecure flags, description and link.
pub type SuiteView = (Seq<char>, u16, bool, bool, Seq<char>, Seq<char>);

impl View for TlsCipherSuite {
    type V = SuiteView;

    open spec fn view(&self) -> SuiteView {
        (self.name@, self.cipher_suite_id, self.obsolete, self.insecure, self.desc@, self.href@)
    }
}

/// The groups of a list of named entries by identifier, each carrying the
/// name it was listed under; a later entry replaces an earlier one with the
/// same identifier.
pub open spec fn groups_index(entries: Seq<(Seq<char>, GroupView)>) -> Map<u16, GroupView>
    decreases entries.len(),
{
    if entries.len() == 0 {
        Map::empty()
    } else {
        let (name, g) = entries.last();
        groups_index(entries.drop_last()).insert(g.1, (name, g.1, g.2, g.3, g.4, g.5, g.6, g.7))
    }
}

/// The cipher suites of a list of named entries by identifier, each
/// carrying the name it was listed under; a later entry replaces an earlier
/// one with the same identifier.
pub open spec fn suites_index(entries: Seq<(Seq<char>, SuiteView)>) -> Map<u16, SuiteView>
    decreases entries.len(),
{
    if entries.len() == 0 {
        Map::empty()
    } else {
        let (name, c) = entries.last();
        suites_index(entries.drop_last()).insert(c.1, (name, c.1, c.2, c.3, c.4, c.5))
    }
}

/// The views of named group entries.
pub open spec fn named_groups_view(v: Seq<(String, TlsGroup)>) -> Seq<(Seq<char>, GroupView)> {
    v.map_values(|e: (String, TlsGroup)| (e.0@, e.1@))
}

/// The views of named cipher suite entries.
pub open spec fn named_suites_view(v: Seq<(String, TlsCipherSuite)>) -> Seq<(Seq<char>, SuiteView)> {
    v.map_values(|e: (String, TlsCipherSuite)| (e.0@, e.1@))
}

/// Files groups listed by name under their identifiers, naming each after
/// the entry it came from.
pub fn groups_by_id(named: &Vec<(String, TlsGroup)>) -> (t: Table<u16, TlsGroup>)
    ensures
        t@ == groups_index(named_groups_view(named@)),
{
    let ghost nv = named_groups_view(named@);
    let mut t: Table<u16, TlsGroup> = Table::new();
    let mut i: usize = 0;
    assert(t@ =~= groups_index(nv.take(0)));
    while i < named.len()
        invariant
            nv == named_groups_view(named@),
            i <= named@.len(),
            t@ == groups_index(nv.take(i as int)),
        decreases named@.len() - i,
    {
        let (name, g) = &named[i];
        let group = TlsGroup {
            name: name.clone(),
            group_id: g.group_id,
            pqc: g.pqc,
            hybrid: g.hybrid,
            obsolete: g.obsolete,
            insecure: g.insecure,
            desc: g.desc.clone(),
            href: g.href.clone(),
        };
        proof {
            assert(nv.take(i + 1).drop_last() =~= nv.take(i as int));
            assert(nv.take(i + 1).last() == nv[i as int]);
        }
        t.put(g.group_id, group);
        i = i + 1;
    }
    assert(nv.take(named@.len() as int) =~= nv);
    t
}

/// Files cipher suites listed by name under their identifiers, naming each
/// after the entry it came from.
pub fn cipher_suites_by_id(named: &Vec<(String, TlsCipherSuite)>) -> (t: Table<u16, TlsCipherSuite>)
    ensures
        t@ == suites_index(named_suites_view(named@)),
{
    let ghost nv = named_suites_view(named@);
    let mut t: Table<u16, TlsCipherSuite> = Table::new();
    let mut i: usize = 0;
    assert(t@ =~= suites_index(nv.take(0)));
    while i < named.len()
        invariant
            nv == named_suites_view(named@),
            i <= named@.len(),
            t@ == suites_index(nv.take(i as int)),
        decreases named@.len() - i,
    {
        let (name, c) = &named[i];
        let suite = TlsCipherSuite {
            name: name.clone(),
            cipher_suite_id: c.cipher_suite_id,
            obsolete: c.obsolete,
            insecure: c.insecure,
            desc: c.desc.clone(),
            href: c.href.clone(),
        };
        proof {
            assert(nv.take(i + 1).drop_last() =~= nv.take(i as int));
            assert(nv.take(i + 1).last() == nv[i as int]);
        }
        t.put(c.cipher_suite_id, suite);
        i = i + 1;
    }
    assert(nv.take(named@.len() as int) =~= nv);
    t
}

/// The verdict on a group a host offers: hybrid first, then pure
/// post-quantum, else not safe.
pub open spec fn group_capability_status(g: GroupView) -> Seq<char> {
    if g.3 {
        "Hybrid"@
    } else if g.2 {
        "Pure PQC"@
    } else {
        "Not PQC safe"@
    }
}

/// The group resists quantum attack, alone or as a hybrid.
pub open spec fn group_pqc_safe(g: GroupView) -> bool {
    g.2 || g.3
}

/// How a report lists an offered group.
pub open spec fn group_details(g: GroupView) -> DetailView {
    (g.0, g.6, group_capability_status(g), g.7)
}

/// The details of the known groups among `ids`.
pub open spec fn key_group_details(ids: Set<u16>, groups: Map<u16, GroupView>) -> Set<DetailView> {
    Set::new(
        |d: DetailView|
            exists|id: u16|
                ids.contains(id) && groups.contains_key(id) && d == group_details(#[trigger] groups[id]),
    )
}

/// Some known group among `ids` resists quantum attack.
pub open spec fn key_group_pqc(ids: Set<u16>, groups: Map<u16, GroupView>) -> bool {
    exists|id: u16| ids.contains(id) && groups.contains_key(id) && group_pqc_safe(#[trigger] groups[id])
}

/// The address of an `address:port` key.
pub open spec fn key_host(k: Seq<char>) -> Seq<char> {
    (split_endpoint(k)->0).0
}

/// Every key of the table reads as `address:port`.
pub open spec fn keys_readable(m: Map<Seq<char>, Set<u16>>) -> bool {
    forall|k: Seq<char>| #[trigger] m.contains_key(k) ==> split_endpoint(k) is Some
}

/// The addresses of the keys of the table.
pub open spec fn key_hosts(m: Map<Seq<char>, Set<u16>>) -> Set<Seq<char>> {
    Set::new(|ip: Seq<char>| exists|k: Seq<char>| #[trigger] m.contains_key(k) && key_host(k) == ip)
}

/// The addresses with a key whose offered groups include a known one that
/// resists quantum attack.
pub open spec fn keyshare_pqc_hosts(m: Map<Seq<char>, Set<u16>>, groups: Map<u16, GroupView>) -> Set<Seq<char>> {
    Set::new(
        |ip: Seq<char>|
            exists|k: Seq<char>|
                #[trigger] m.contains_key(k) && key_host(k) == ip && key_group_pqc(m[k], groups),
    )
}

/// For each address, the details of the known groups offered from any of
/// its keys.
pub open spec fn keyshare_capabilities(m: Map<Seq<char>, Set<u16>>, groups: Map<u16, GroupView>) -> Map<Seq<char>, Set<DetailView>> {
    Map::new(
        |ip: Seq<char>| key_hosts(m).contains(ip),
        |ip: Seq<char>|
            Set::new(
                |d: DetailView|
                    exists|k: Seq<char>|
                        #[trigger] m.contains_key(k) && key_host(k) == ip && key_group_details(
                            m[k],
                            groups,
                        ).contains(d),
            ),
    )
}

fn group_status(g: &TlsGroup) -> (s: String)
    ensures
        s@ == group_capability_status(g@),
{
    if g.hybrid {
        "Hybrid".to_owned()
    } else if g.pqc {
        "Pure PQC".to_owned()
    } else {
        "Not PQC safe".to_owned()
    }
}

/// Adds the details of the known groups among `ids` to `set`, and tells
/// whether one of them resists quantum attack.
fn add_group_details(set: &mut DistinctSet<AlgorithmDetails>, ids: &IdSet, groups: &Table<u16, TlsGroup>) -> (pqc: bool)
    ensures
        final(set)@ == old(set)@ + key_group_details(ids@, groups@),
        pqc == key_group_pqc(ids@, groups@),
{
    let v = ids.to_vec();
    let ghost gm = groups@;
    let ghost set0 = set@;
    let mut pqc = false;
    let mut i: usize = 0;
    while i < v.len()
        invariant
            gm == groups@,
            v@.to_set() == ids@,
            i <= v@.len(),
            set@ == set0 + Set::new(
                |d: DetailView|
                    exists|j: int|
                        0 <= j < i && gm.contains_key(#[trigger] v@[j]) && d == group_details(gm[v@[j]]),
            ),
            pqc == exists|j: int| 0 <= j < i && gm.contains_key(#[trigger] v@[j]) && group_pqc_safe(gm[v@[j]]),
        decreases v@.len() - i,
    {
        let ghost prev = set@;
        let ghost before = Set::new(
            |d: DetailView|
                exists|j: int|
                    0 <= j < i && gm.contains_key(#[trigger] v@[j]) && d == group_details(gm[v@[j]]),
        );
        let ghost after = Set::new(
            |d: DetailView|
                exists|j: int|
                    0 <= j < i + 1 && gm.contains_key(#[trigger] v@[j]) && d == group_details(gm[v@[j]]),
        );
        match groups.get(&v[i]) {
            Some(g) => {
                if g.hybrid || g.pqc {
                    pqc = true;
                }
                let d = AlgorithmDetails::new(g.name.clone(), g.desc.clone(), group_status(g), g.href.clone());
                set.insert(d);
                proof {
                    assert(after =~= before.insert(group_details(gm[v@[i as int]])));
                    assert(set@ =~= set0 + after);
                }
            },
            None => {
                proof {
                    assert(after =~= before);
                }
            },
        }
        i = i + 1;
    }
    proof {
        let done = Set::new(
            |d: DetailView|
                exists|j: int|
                    0 <= j < v@.len() && gm.contains_key(#[trigger] v@[j]) && d == group_details(gm[v@[j]]),
        );
        assert forall|d: DetailView| done.contains(d) <==> key_group_details(ids@, gm).contains(d) by {
            if key_group_details(ids@, gm).contains(d) {
                let id = choose|id: u16|
                    ids@.contains(id) && gm.contains_key(id) && d == group_details(#[trigger] gm[id]);
                assert(v@.to_set().contains(id));
                let j = choose|j: int| 0 <= j < v@.len() && v@[j] == id;
            }
            if done.contains(d) {
                let j = choose|j: int|
                    0 <= j < v@.len() && gm.contains_key(#[trigger] v@[j]) && d == group_details(gm[v@[j]]);
                assert(v@.to_set().contains(v@[j]));
            }
        }
        assert(done =~= key_group_details(ids@, gm));
        if key_group_pqc(ids@, gm) {
            let id = choose|id: u16| ids@.contains(id) && gm.contains_key(id) && group_pqc_safe(#[trigger] gm[id]);
            assert(v@.to_set().contains(id));
            let j = choose|j: int| 0 <= j < v@.len() && v@[j] == id;
        }
        if pqc {
            let j = choose|j: int| 0 <= j < v@.len() && gm.contains_key(#[trigger] v@[j]) && group_pqc_safe(gm[v@[j]]);
            assert(v@.to_set().contains(v@[j]));
        }
    }
    pqc
}

/// The addresses of the first `n` keys of `order`.
pub open spec fn hosts_upto(order: Seq<Seq<char>>, n: int) -> Set<Seq<char>> {
    Set::new(|ip: Seq<char>| exists|j: int| 0 <= j < n && key_host(#[trigger] order[j]) == ip)
}

/// The addresses among the first `n` keys of `order` whose offered groups
/// include a known one that resists quantum attack.
pub open spec fn pqc_hosts_upto(order: Seq<Seq<char>>, m: Map<Seq<char>, Set<u16>>, groups: Map<u16, GroupView>, n: int) -> Set<Seq<char>> {
    Set::new(
        |ip: Seq<char>|
            exists|j: int|
                0 <= j < n && key_host(#[trigger] order[j]) == ip && key_group_pqc(m[order[j]], groups),
    )
}

/// The details of the known groups offered from `ip` among the first `n`
/// keys of `order`.
pub open spec fn capabilities_upto(
    order: Seq<Seq<char>>,
    m: Map<Seq<char>, Set<u16>>,
    groups: Map<u16, GroupView>,
    n: int,
    ip: Seq<char>,
) -> Set<DetailView> {
    Set::new(
        |d: DetailView|
            exists|j: int|
                0 <= j < n && key_host(#[trigger] order[j]) == ip && key_group_details(
                    m[order[j]],
                    groups,
                ).contains(d),
    )
}

proof fn lemma_keyshare_step(
    order: Seq<Seq<char>>,
    m: Map<Seq<char>, Set<u16>>,
    groups: Map<u16, GroupView>,
    n: int,
)
    requires
        0 <= n < order.len(),
    ensures
        hosts_upto(order, n + 1) == hosts_upto(order, n).insert(key_host(order[n])),
        pqc_hosts_upto(order, m, groups, n + 1) == (if key_group_pqc(m[order[n]], groups) {
            pqc_hosts_upto(order, m, groups, n).insert(key_host(order[n]))
        } else {
            pqc_hosts_upto(order, m, groups, n)
        }),
        capabilities_upto(order, m, groups, n + 1, key_host(order[n])) == capabilities_upto(
            order,
            m,
            groups,
            n,
            key_host(order[n]),
        ) + key_group_details(m[order[n]], groups),
        forall|ip: Seq<char>|
            ip != key_host(order[n]) ==> #[trigger] capabilities_upto(order, m, groups, n + 1, ip)
                == capabilities_upto(order, m, groups, n, ip),
        !hosts_upto(order, n).contains(key_host(order[n])) ==> capabilities_upto(
            order,
            m,
            groups,
            n,
            key_host(order[n]),
        ) == Set::<DetailView>::empty(),
        pqc_hosts_upto(order, m, groups, n).subset_of(hosts_upto(order, n)),
{
    let h = key_host(order[n]);
    let a = hosts_upto(order, n);
    let b = hosts_upto(order, n + 1);
    assert forall|ip: Seq<char>| b.contains(ip) <==> a.insert(h).contains(ip) by {
        if b.contains(ip) {
            let j = choose|j: int| 0 <= j < n + 1 && key_host(#[trigger] order[j]) == ip;
        }
    }
    assert(b =~= a.insert(h));
    let pa = pqc_hosts_upto(order, m, groups, n);
    let pb = pqc_hosts_upto(order, m, groups, n + 1);
    let prhs = if key_group_pqc(m[order[n]], groups) {
        pa.insert(h)
    } else {
        pa
    };
    assert forall|ip: Seq<char>| pb.contains(ip) <==> prhs.contains(ip) by {
        if pb.contains(ip) {
            let j = choose|j: int|
                0 <= j < n + 1 && key_host(#[trigger] order[j]) == ip && key_group_pqc(
                    m[order[j]],
                    groups,
                );
        }
    }
    assert(pb =~= prhs);
    assert forall|ip: Seq<char>| pa.contains(ip) implies a.contains(ip) by {
        let j = choose|j: int|
            0 <= j < n && key_host(#[trigger] order[j]) == ip && key_group_pqc(m[order[j]], groups);
    }
    let ca = capabilities_upto(order, m, groups, n, h);
    let cb = capabilities_upto(order, m, groups, n + 1, h);
    let kd = key_group_details(m[order[n]], groups);
    assert forall|d: DetailView| cb.contains(d) <==> (ca + kd).contains(d) by {
        if cb.contains(d) {
            let j = choose|j: int|
                0 <= j < n + 1 && key_host(#[trigger] order[j]) == h && key_group_details(
                    m[order[j]],
                    groups,
                ).contains(d);
        }
    }
    assert(cb =~= ca + kd);
    assert forall|ip: Seq<char>|
        ip != h implies #[trigger] capabilities_upto(order, m, groups, n + 1, ip) == capabilities_upto(
            order,
            m,
            groups,
            n,
            ip,
        ) by {
        let x = capabilities_upto(order, m, groups, n, ip);
        let y = capabilities_upto(order, m, groups, n + 1, ip);
        assert forall|d: DetailView| y.contains(d) <==> x.contains(d) by {
            if y.contains(d) {
                let j = choose|j: int|
                    0 <= j < n + 1 && key_host(#[trigger] order[j]) == ip && key_group_details(
                        m[order[j]],
                        groups,
                    ).contains(d);
            }
        }
        assert(y =~= x);
    }
    if !a.contains(h) {
        assert forall|d: DetailView| !ca.contains(d) by {
            if ca.contains(d) {
                let j = choose|j: int|
                    0 <= j < n && key_host(#[trigger] order[j]) == h && key_group_details(
                        m[order[j]],
                        groups,
                    ).contains(d);
                assert(a.contains(h));
            }
        }
        assert(ca =~= Set::<DetailView>::empty());
    }
}

/// The addresses of the key-share table, those offering a known group that
/// resists quantum attack, each address's known offered groups and each
/// address's verdict; an error when a key does not read as
/// `address:port`. An address with several keys is judged supported when
/// any of its keys offers such a group.
fn keyshare_part(ks: &Table<String, IdSet>, groups: &Table<u16, TlsGroup>) -> (r: Result<
    (SortedNames, SortedNames, Table<String, DistinctSet<AlgorithmDetails>>, Table<String, String>),
    SummaryError,
>)
    ensures
        r is Ok <==> keys_readable(ks@),
        r matches Ok((ips, pqc, caps, verdicts)) ==> {
            &&& ips@ == key_hosts(ks@)
            &&& pqc@ == keyshare_pqc_hosts(ks@, groups@)
            &&& caps@ == keyshare_capabilities(ks@, groups@)
            &&& verdicts@ == Map::new(
                |ip: Seq<char>| key_hosts(ks@).contains(ip),
                |ip: Seq<char>| support_text(keyshare_pqc_hosts(ks@, groups@).contains(ip)),
            )
        },
{
    let ghost order = ks.key_order();
    let ghost m = ks@;
    let ghost gm = groups@;
    let n = ks.len();
    let mut ips = SortedNames::new();
    let mut pqc_ips = SortedNames::new();
    let mut caps: Table<String, DistinctSet<AlgorithmDetails>> = Table::new();
    let mut verdicts: Table<String, String> = Table::new();
    let mut i: usize = 0;
    assert(hosts_upto(order, 0) =~= Set::<Seq<char>>::empty());
    assert(pqc_hosts_upto(order, m, gm, 0) =~= Set::<Seq<char>>::empty());
    assert(caps@ =~= Map::new(
        |ip: Seq<char>| hosts_upto(order, 0).contains(ip),
        |ip: Seq<char>| capabilities_upto(order, m, gm, 0, ip),
    ));
    assert(verdicts@ =~= Map::new(
        |ip: Seq<char>| hosts_upto(order, 0).contains(ip),
        |ip: Seq<char>| support_text(pqc_hosts_upto(order, m, gm, 0).contains(ip)),
    ));
    while i < n
        invariant
            n == order.len(),
            order == ks.key_order(),
            m == ks@,
            gm == groups@,
            order.no_duplicates(),
            forall|k: Seq<char>| m.contains_key(k) <==> order.contains(k),
            i <= n,
            forall|j: int| 0 <= j < i ==> split_endpoint(#[trigger] order[j]) is Some,
            ips@ == hosts_upto(order, i as int),
            pqc_ips@ == pqc_hosts_upto(order, m, gm, i as int),
            caps@ == Map::new(
                |ip: Seq<char>| hosts_upto(order, i as int).contains(ip),
                |ip: Seq<char>| capabilities_upto(order, m, gm, i as int, ip),
            ),
            verdicts@ == Map::new(
                |ip: Seq<char>| hosts_upto(order, i as int).contains(ip),
                |ip: Seq<char>| support_text(pqc_hosts_upto(order, m, gm, i as int).contains(ip)),
            ),
        decreases n - i,
    {
        let (key, ids) = ks.entry_at(i);
        let ghost k = key@;
        let ip = match split_endpoint_text(key.as_str()) {
            Some((h, _)) => h,
            None => {
                assert(m.contains_key(k));
                return Err(SummaryError::UnreadableEndpoint);
            },
        };
        let ghost ipv = ip@;
        proof {
            lemma_keyshare_step(order, m, gm, i as int);
            assert(key_host(k) == ipv);
        }
        ips.insert(ip.clone());
        let mut set = match caps.replace(ip.clone(), DistinctSet::new()) {
            Some(s) => s,
            None => DistinctSet::new(),
        };
        assert(set@ == capabilities_upto(order, m, gm, i as int, ipv));
        let pqc = add_group_details(&mut set, ids, groups);
        caps.put(ip.clone(), set);
        if pqc {
            pqc_ips.insert(ip.clone());
            verdicts.put(ip, PQC_SUPPORTED.to_owned());
        } else if verdicts.get(&ip).is_none() {
            verdicts.put(ip, "No Support".to_owned());
        }
        proof {
            assert(caps@ =~= Map::new(
                |x: Seq<char>| hosts_upto(order, i + 1).contains(x),
                |x: Seq<char>| capabilities_upto(order, m, gm, i + 1, x),
            ));
            assert(verdicts@ =~= Map::new(
                |x: Seq<char>| hosts_upto(order, i + 1).contains(x),
                |x: Seq<char>| support_text(pqc_hosts_upto(order, m, gm, i + 1).contains(x)),
            ));
        }
        i = i + 1;
    }
    proof {
        assert forall|k: Seq<char>| #[trigger] m.contains_key(k) implies split_endpoint(k) is Some by {
            assert(order.contains(k));
            let j = choose|j: int| 0 <= j < order.len() && order[j] == k;
        }
        assert forall|ip: Seq<char>| hosts_upto(order, n as int).contains(ip) <==> key_hosts(m).contains(ip) by {
            if key_hosts(m).contains(ip) {
                let k = choose|k: Seq<char>| #[trigger] m.contains_key(k) && key_host(k) == ip;
                assert(order.contains(k));
                let j = choose|j: int| 0 <= j < order.len() && order[j] == k;
            }
            if hosts_upto(order, n as int).contains(ip) {
                let j = choose|j: int| 0 <= j < n && key_host(#[trigger] order[j]) == ip;
                assert(order.contains(order[j]));
            }
        }
        assert(ips@ =~= key_hosts(m));
        assert forall|ip: Seq<char>| pqc_hosts_upto(order, m, gm, n as int).contains(ip) <==> keyshare_pqc_hosts(m, gm).contains(ip) by {
            if keyshare_pqc_hosts(m, gm).contains(ip) {
                let k = choose|k: Seq<char>|
                    #[trigger] m.contains_key(k) && key_host(k) == ip && key_group_pqc(m[k], gm);
                assert(order.contains(k));
                let j = choose|j: int| 0 <= j < order.len() && order[j] == k;
            }
            if pqc_hosts_upto(order, m, gm, n as int).contains(ip) {
                let j = choose|j: int|
                    0 <= j < n && key_host(#[trigger] order[j]) == ip && key_group_pqc(m[order[j]], gm);
                assert(order.contains(order[j]));
            }
        }
        assert(pqc_ips@ =~= keyshare_pqc_hosts(m, gm));
        let spec_caps = keyshare_capabilities(m, gm);
        assert forall|ip: Seq<char>| spec_caps.contains_key(ip) implies capabilities_upto(order, m, gm, n as int, ip) == spec_caps[ip] by {
            let x = capabilities_upto(order, m, gm, n as int, ip);
            let y = spec_caps[ip];
            assert forall|d: DetailView| x.contains(d) <==> y.contains(d) by {
                if y.contains(d) {
                    let k = choose|k: Seq<char>|
                        #[trigger] m.contains_key(k) && key_host(k) == ip && key_group_details(m[k], gm).contains(d);
                    assert(order.contains(k));
                    let j = choose|j: int| 0 <= j < order.len() && order[j] == k;
                }
                if x.contains(d) {
                    let j = choose|j: int|
                        0 <= j < n && key_host(#[trigger] order[j]) == ip && key_group_details(m[order[j]], gm).contains(d);
                    assert(order.contains(order[j]));
                }
            }
            assert(x =~= y);
        }
        assert(caps@ =~= spec_caps);
        assert(verdicts@ =~= Map::new(
            |ip: Seq<char>| key_hosts(m).contains(ip),
            |ip: Seq<char>| support_text(keyshare_pqc_hosts(m, gm).contains(ip)),
        ));
    }
    Ok((ips, pqc_ips, caps, verdicts))
}

/// The addresses of a cipher-suite table; an error when a key does not read
/// as `address:port`.
fn cipher_hosts(tc: &Table<String, IdSet>) -> (r: Result<SortedNames, SummaryError>)
    ensures
        r is Ok <==> keys_readable(tc@),
        r matches Ok(ips) ==> ips@ == key_hosts(tc@),
{
    let ghost order = tc.key_order();
    let ghost m = tc@;
    let n = tc.len();
    let mut ips = SortedNames::new();
    let mut i: usize = 0;
    assert(hosts_upto(order, 0) =~= Set::<Seq<char>>::empty());
    while i < n
        invariant
            n == order.len(),
            order == tc.key_order(),
            m == tc@,
            forall|k: Seq<char>| m.contains_key(k) <==> order.contains(k),
            i <= n,
            forall|j: int| 0 <= j < i ==> split_endpoint(#[trigger] order[j]) is Some,
            ips@ == hosts_upto(order, i as int),
        decreases n - i,
    {
        let (key, _) = tc.entry_at(i);
        let ghost k = key@;
        let ip = match split_endpoint_text(key.as_str()) {
            Some((h, _)) => h,
            None => {
                assert(m.contains_key(k));
                return Err(SummaryError::UnreadableEndpoint);
            },
        };
        proof {
            lemma_keyshare_step(order, m, Map::empty(), i as int);
        }
        ips.insert(ip);
        i = i + 1;
    }
    proof {
        assert forall|k: Seq<char>| #[trigger] m.contains_key(k) implies split_endpoint(k) is Some by {
            assert(order.contains(k));
            let j = choose|j: int| 0 <= j < order.len() && order[j] == k;
        }
        assert forall|ip: Seq<char>| hosts_upto(order, n as int).contains(ip) <==> key_hosts(m).contains(ip) by {
            if key_hosts(m).contains(ip) {
                let k = choose|k: Seq<char>| #[trigger] m.contains_key(k) && key_host(k) == ip;
                assert(order.contains(k));
                let j = choose|j: int| 0 <= j < order.len() && order[j] == k;
            }
            if hosts_upto(order, n as int).contains(ip) {
                let j = choose|j: int| 0 <= j < n && key_host(#[trigger] order[j]) == ip;
                assert(order.contains(order[j]));
            }
        }
        assert(ips@ =~= key_hosts(m));
    }
    Ok(ips)
}

/// The endpoints of a TLS session: client address and port, server address
/// and port.
pub type TlsKeyView = (Seq<u8>, u16, Seq<u8>, u16);

/// The verdict on a session's group: hybrid first, then pure post-quantum,
/// else not supported.
pub open spec fn group_session_status(g: GroupView) -> Seq<char> {
    if g.3 {
        "Hybrid"@
    } else if g.2 {
        "Pure PQC"@
    } else {
        "NOT Supported"@
    }
}

/// How a report lists a TLS session that settled on the known group `g`.
pub open spec fn tls_session_result(key: TlsKeyView, g: GroupView) -> SessionView {
    (ip_text(key.0), key.1, ip_text(key.2), key.3, g.0, group_session_status(g))
}

/// The session settled on a known group that resists quantum attack.
pub open spec fn tls_session_pqc(s: Map<TlsKeyView, u16>, groups: Map<u16, GroupView>, key: TlsKeyView) -> bool {
    s.contains_key(key) && groups.contains_key(s[key]) && group_pqc_safe(groups[s[key]])
}

/// For each client address with a session, the results of its sessions
/// whose group is known.
pub open spec fn tls_session_results(s: Map<TlsKeyView, u16>, groups: Map<u16, GroupView>) -> Map<Seq<char>, Set<SessionView>> {
    Map::new(
        |ip: Seq<char>| exists|key: TlsKeyView| #[trigger] s.contains_key(key) && ip_text(key.0) == ip,
        |ip: Seq<char>|
            Set::new(
                |r: SessionView|
                    exists|key: TlsKeyView|
                        #[trigger] s.contains_key(key) && ip_text(key.0) == ip && groups.contains_key(
                            s[key],
                        ) && r == tls_session_result(key, groups[s[key]]),
            ),
    )
}

/// The client addresses of the first `n` sessions of `order`.
pub open spec fn tls_sources_upto(order: Seq<TlsKeyView>, n: int) -> Set<Seq<char>> {
    Set::new(|ip: Seq<char>| exists|j: int| 0 <= j < n && ip_text((#[trigger] order[j]).0) == ip)
}

/// The results from `ip` among the first `n` sessions of `order`.
pub open spec fn tls_results_upto(
    order: Seq<TlsKeyView>,
    s: Map<TlsKeyView, u16>,
    groups: Map<u16, GroupView>,
    n: int,
    ip: Seq<char>,
) -> Set<SessionView> {
    Set::new(
        |r: SessionView|
            exists|j: int|
                0 <= j < n && ip_text((#[trigger] order[j]).0) == ip && groups.contains_key(s[order[j]])
                    && r == tls_session_result(order[j], groups[s[order[j]]]),
    )
}

proof fn lemma_tls_session_step(
    order: Seq<TlsKeyView>,
    s: Map<TlsKeyView, u16>,
    groups: Map<u16, GroupView>,
    n: int,
)
    requires
        0 <= n < order.len(),
    ensures
        tls_sources_upto(order, n + 1) == tls_sources_upto(order, n).insert(ip_text(order[n].0)),
        tls_results_upto(order, s, groups, n + 1, ip_text(order[n].0)) == (if groups.contains_key(
            s[order[n]],
        ) {
            tls_results_upto(order, s, groups, n, ip_text(order[n].0)).insert(
                tls_session_result(order[n], groups[s[order[n]]]),
            )
        } else {
            tls_results_upto(order, s, groups, n, ip_text(order[n].0))
        }),
        forall|ip: Seq<char>|
            ip != ip_text(order[n].0) ==> #[trigger] tls_results_upto(order, s, groups, n + 1, ip)
                == tls_results_upto(order, s, groups, n, ip),
        !tls_sources_upto(order, n).contains(ip_text(order[n].0)) ==> tls_results_upto(
            order,
            s,
            groups,
            n,
            ip_text(order[n].0),
        ) == Set::<SessionView>::empty(),
{
    let h = ip_text(order[n].0);
    let a = tls_sources_upto(order, n);
    let b = tls_sources_upto(order, n + 1);
    assert forall|ip: Seq<char>| b.contains(ip) <==> a.insert(h).contains(ip) by {
        if b.contains(ip) {
            let j = choose|j: int| 0 <= j < n + 1 && ip_text((#[trigger] order[j]).0) == ip;
        }
    }
    assert(b =~= a.insert(h));
    let x = tls_results_upto(order, s, groups, n, h);
    let y = tls_results_upto(order, s, groups, n + 1, h);
    let z = if groups.contains_key(s[order[n]]) {
        x.insert(tls_session_result(order[n], groups[s[order[n]]]))
    } else {
        x
    };
    assert forall|r: SessionView| y.contains(r) <==> z.contains(r) by {
        if y.contains(r) {
            let j = choose|j: int|
                0 <= j < n + 1 && ip_text((#[trigger] order[j]).0) == h && groups.contains_key(
                    s[order[j]],
                ) && r == tls_session_result(order[j], groups[s[order[j]]]);
        }
    }
    assert(y =~= z);
    assert forall|ip: Seq<char>|
        ip != h implies #[trigger] tls_results_upto(order, s, groups, n + 1, ip) == tls_results_upto(
            order,
            s,
            groups,
            n,
            ip,
        ) by {
        let x2 = tls_results_upto(order, s, groups, n, ip);
        let y2 = tls_results_upto(order, s, groups, n + 1, ip);
        assert forall|r: SessionView| y2.contains(r) <==> x2.contains(r) by {
            if y2.contains(r) {
                let j = choose|j: int|
                    0 <= j < n + 1 && ip_text((#[trigger] order[j]).0) == ip && groups.contains_key(
                        s[order[j]],
                    ) && r == tls_session_result(order[j], groups[s[order[j]]]);
            }
        }
        assert(y2 =~= x2);
    }
    if !a.contains(h) {
        assert forall|r: SessionView| !x.contains(r) by {
            if x.contains(r) {
                let j = choose|j: int|
                    0 <= j < n && ip_text((#[trigger] order[j]).0) == h && groups.contains_key(
                        s[order[j]],
                    ) && r == tls_session_result(order[j], groups[s[order[j]]]);
                assert(a.contains(h));
            }
        }
        assert(x =~= Set::<SessionView>::empty());
    }
}

fn session_status(g: &TlsGroup) -> (s: String)
    ensures
        s@ == group_session_status(g@),
{
    if g.hybrid {
        "Hybrid".to_owned()
    } else if g.pqc {
        "Pure PQC".to_owned()
    } else {
        "NOT Supported".to_owned()
    }
}

/// For each client address with a TLS session, the results of its sessions
/// whose group is known, and the number of sessions that settled on a
/// known group resisting quantum attack.
fn tls_session_part(sessions: &Table<TlsSessionKey, u16>, groups: &Table<u16, TlsGroup>) -> (r: (
    Table<String, DistinctSet<SessionResult>>,
    usize,
))
    ensures
        r.0@ == tls_session_results(sessions@, groups@),
        r.1 == sessions.key_order().filter(|k: TlsKeyView| tls_session_pqc(sessions@, groups@, k)).len(),
{
    let ghost order = sessions.key_order();
    let ghost sm = sessions@;
    let ghost gm = groups@;
    let n = sessions.len();
    let mut results: Table<String, DistinctSet<SessionResult>> = Table::new();
    let mut count: usize = 0;
    let mut i: usize = 0;
    assert(tls_sources_upto(order, 0) =~= Set::<Seq<char>>::empty());
    assert(results@ =~= Map::new(
        |ip: Seq<char>| tls_sources_upto(order, 0).contains(ip),
        |ip: Seq<char>| tls_results_upto(order, sm, gm, 0, ip),
    ));
    assert(order.take(0).filter(|k: TlsKeyView| tls_session_pqc(sm, gm, k)) =~= Seq::<TlsKeyView>::empty());
    while i < n
        invariant
            n == order.len(),
            order == sessions.key_order(),
            sm == sessions@,
            gm == groups@,
            forall|k: TlsKeyView| sm.contains_key(k) <==> order.contains(k),
            i <= n,
            results@ == Map::new(
                |ip: Seq<char>| tls_sources_upto(order, i as int).contains(ip),
                |ip: Seq<char>| tls_results_upto(order, sm, gm, i as int, ip),
            ),
            count == order.take(i as int).filter(|k: TlsKeyView| tls_session_pqc(sm, gm, k)).len(),
            count <= i,
        decreases n - i,
    {
        let (key, gid) = sessions.entry_at(i);
        let ghost k = key@;
        proof {
            lemma_tls_session_step(order, sm, gm, i as int);
            lemma_take_step(order, i as int);
            assert(order.take(i + 1).drop_last() =~= order.take(i as int));
            reveal_with_fuel(Seq::filter, 1);
            assert(sm.contains_key(k));
        }
        let source_ip = key.src_ip.to_text();
        let ghost ipv = source_ip@;
        let mut set = match results.replace(source_ip.clone(), DistinctSet::new()) {
            Some(s) => s,
            None => DistinctSet::new(),
        };
        assert(set@ == tls_results_upto(order, sm, gm, i as int, ipv));
        match groups.get(gid) {
            Some(g) => {
                if g.hybrid || g.pqc {
                    count = count + 1;
                }
                let res = SessionResult::new(
                    source_ip.clone(),
                    key.src_port,
                    key.dst_ip.to_text(),
                    key.dst_port,
                    g.name.clone(),
                    session_status(g),
                );
                set.insert(res);
            },
            None => {},
        }
        results.put(source_ip, set);
        proof {
            assert(results@ =~= Map::new(
                |ip: Seq<char>| tls_sources_upto(order, i + 1).contains(ip),
                |ip: Seq<char>| tls_results_upto(order, sm, gm, i + 1, ip),
            ));
        }
        i = i + 1;
    }
    proof {
        lemma_take_all(order);
        let spec_map = tls_session_results(sm, gm);
        assert forall|ip: Seq<char>| tls_sources_upto(order, n as int).contains(ip) <==> spec_map.contains_key(ip) by {
            if spec_map.contains_key(ip) {
                let key = choose|key: TlsKeyView| #[trigger] sm.contains_key(key) && ip_text(key.0) == ip;
                assert(order.contains(key));
                let j = choose|j: int| 0 <= j < order.len() && order[j] == key;
            }
            if tls_sources_upto(order, n as int).contains(ip) {
                let j = choose|j: int| 0 <= j < n && ip_text((#[trigger] order[j]).0) == ip;
                assert(order.contains(order[j]));
            }
        }
        assert forall|ip: Seq<char>| spec_map.contains_key(ip) implies tls_results_upto(order, sm, gm, n as int, ip) == spec_map[ip] by {
            let x = tls_results_upto(order, sm, gm, n as int, ip);
            let y = spec_map[ip];
            assert forall|r: SessionView| x.contains(r) <==> y.contains(r) by {
                if y.contains(r) {
                    let key = choose|key: TlsKeyView|
                        #[trigger] sm.contains_key(key) && ip_text(key.0) == ip && gm.contains_key(sm[key])
                            && r == tls_session_result(key, gm[sm[key]]);
                    assert(order.contains(key));
                    let j = choose|j: int| 0 <= j < order.len() && order[j] == key;
                }
                if x.contains(r) {
                    let j = choose|j: int|
                        0 <= j < n && ip_text((#[trigger] order[j]).0) == ip && gm.contains_key(sm[order[j]])
                            && r == tls_session_result(order[j], gm[sm[order[j]]]);
                    assert(order.contains(order[j]));
                }
            }
            assert(x =~= y);
        }
        assert(results@ =~= spec_map);
    }
    (results, count)
}

/// Adds every name of `from` to `into`.
fn add_names(into: &mut SortedNames, from: &SortedNames)
    ensures
        final(into)@ == old(into)@ + from@,
{
    let n = from.len();
    let ghost o = from.order();
    let ghost start = into@;
    let mut i: usize = 0;
    assert(o.take(0).to_set() =~= Set::<Seq<char>>::empty());
    while i < n
        invariant
            n == o.len(),
            o == from.order(),
            i <= n,
            into@ == start + o.take(i as int).to_set(),
        decreases n - i,
    {
        proof {
            lemma_take_step(o, i as int);
        }
        let name = from.get(i);
        into.insert(name.clone());
        assert(into@ =~= start + o.take(i + 1).to_set());
        i = i + 1;
    }
    proof {
        lemma_take_all(o);
    }
}

/// The verdicts on TLS hosts: those with key shares are judged by their
/// offered groups; those seen only offering cipher suites are `TLS 1.2`.
pub open spec fn tls_verdicts(tc: Map<Seq<char>, Set<u16>>, ks: Map<Seq<char>, Set<u16>>, groups: Map<u16, GroupView>) -> Map<Seq<char>, Seq<char>> {
    Map::new(
        |ip: Seq<char>| key_hosts(ks).contains(ip) || key_hosts(tc).contains(ip),
        |ip: Seq<char>|
            if key_hosts(ks).contains(ip) {
                support_text(keyshare_pqc_hosts(ks, groups).contains(ip))
            } else {
                "TLS 1.2"@
            },
    )
}

/// Every endpoint the summary reads is readable: those of SSH connections
/// with a negotiated method and the keys of both TLS tables.
pub open spec fn capture_readable(v: CaptureView) -> bool {
    ssh_sessions_readable(v.1.0) && keys_readable(v.2.0) && keys_readable(v.2.1)
}

/// The hosts of a capture: SSH hosts that advertised methods and TLS hosts
/// that offered key shares.
pub open spec fn capture_hosts(v: CaptureView) -> Set<Seq<char>> {
    v.1.1.dom() + key_hosts(v.2.1)
}

/// The hosts that offer a known method or group resisting quantum attack.
pub open spec fn capture_pqc_hosts(v: CaptureView, kex: Map<Seq<char>, KexView>, groups: Map<u16, GroupView>) -> Set<Seq<char>> {
    ssh_pqc_hosts(v.1.1, kex) + keyshare_pqc_hosts(v.2.1, groups)
}

/// What a capture showed, host by host and session by session.
pub struct DumpSummary {
    pub total_count: usize,
    pub pqc_count: usize,
    pub ssh_hosts_count: usize,
    pub ssh_sessions_count: usize,
    pub ssh_pqc_supported_count: usize,
    pub tls_hosts_count: usize,
    pub tls_sessions_count: usize,
    pub tls_pqc_supported_count: usize,
    pub ssh_host_capabilities: Table<String, DistinctSet<AlgorithmDetails>>,
    pub ssh_hosts: SortedNames,
    pub ssh_hosts_pqc: Table<String, String>,
    pub ssh_sessions_results: Table<String, DistinctSet<SessionResult>>,
    pub tls_hosts: SortedNames,
    pub tls_hosts_pqc: Table<String, String>,
    pub tls_host_capabilities: Table<String, DistinctSet<AlgorithmDetails>>,
    pub tls_sessions_results: Table<String, DistinctSet<SessionResult>>,
}

proof fn lemma_order_len<K>(order: Seq<K>, dom: Set<K>)
    requires
        order.no_duplicates(),
        forall|k: K| dom.contains(k) <==> order.contains(k),
    ensures
        dom.finite(),
        dom.len() == order.len(),
{
    assert(order.to_set() =~= dom);
    order.unique_seq_to_set();
}

/// Summarises a capture, judging SSH methods by `kex` and TLS groups by
/// `groups`; an error when an endpoint it reads is not `address:port`.
pub fn summarize(state: &CaptureState, kex: &Table<String, KexAlgo>, groups: &Table<u16, TlsGroup>) -> (r: Result<DumpSummary, SummaryError>)
    ensures
        r is Ok <==> capture_readable(state@),
        r matches Ok(s) ==> {
            &&& s.total_count == capture_hosts(state@).len()
            &&& s.pqc_count == capture_pqc_hosts(state@, kex@, groups@).len()
            &&& s.ssh_hosts@ == state.host_caps@.dom()
            &&& s.ssh_hosts_count == state.host_caps@.dom().len()
            &&& s.ssh_sessions_count == state.ssh_sessions@.dom().len()
            &&& s.ssh_pqc_supported_count == state.ssh_sessions.key_order().filter(
                |f: FlowView| ssh_session_pqc(state.ssh_sessions@, kex@, f),
            ).len()
            &&& s.ssh_host_capabilities@ == ssh_capabilities(state.host_caps@, kex@)
            &&& s.ssh_hosts_pqc@ == ssh_verdicts(state.host_caps@, kex@)
            &&& s.ssh_sessions_results@ == ssh_session_results(state.ssh_sessions@, kex@)
            &&& s.tls_hosts@ == key_hosts(state.tls_ciphers@)
            &&& s.tls_hosts_count == key_hosts(state.tls_ciphers@).len()
            &&& s.tls_sessions_count == state.tls_sessions@.dom().len()
            &&& s.tls_pqc_supported_count == state.tls_sessions.key_order().filter(
                |k: TlsKeyView| tls_session_pqc(state.tls_sessions@, groups@, k),
            ).len()
            &&& s.tls_hosts_pqc@ == tls_verdicts(state.tls_ciphers@, state.keyshare_groups@, groups@)
            &&& s.tls_host_capabilities@ == keyshare_capabilities(state.keyshare_groups@, groups@)
            &&& s.tls_sessions_results@ == tls_session_results(state.tls_sessions@, groups@)
        },
{
    let (ssh_hosts, ssh_pqc_names, ssh_caps, ssh_verdict_table) = ssh_host_part(&state.host_caps, kex);
    let (ssh_results, ssh_pqc_count) = match ssh_session_part(&state.ssh_sessions, kex) {
        Ok(p) => p,
        Err(e) => return Err(e),
    };
    let tls_hosts = match cipher_hosts(&state.tls_ciphers) {
        Ok(h) => h,
        Err(e) => return Err(e),
    };
    let (ks_hosts, ks_pqc_hosts, tls_caps, mut tls_verdict_table) = match keyshare_part(
        &state.keyshare_groups,
        groups,
    ) {
        Ok(p) => p,
        Err(e) => return Err(e),
    };
    let (tls_results, tls_pqc_count) = tls_session_part(&state.tls_sessions, groups);

    let ghost tc = state.tls_ciphers@;
    let ghost ks = state.keyshare_groups@;
    let ghost gm = groups@;
    let n = tls_hosts.len();
    let ghost o = tls_hosts.order();
    let mut i: usize = 0;
    assert(o.take(0).to_set() =~= Set::<Seq<char>>::empty());
    assert(tls_verdict_table@ =~= Map::new(
        |ip: Seq<char>| key_hosts(ks).contains(ip) || o.take(0).to_set().contains(ip),
        |ip: Seq<char>|
            if key_hosts(ks).contains(ip) {
                support_text(keyshare_pqc_hosts(ks, gm).contains(ip))
            } else {
                "TLS 1.2"@
            },
    ));
    while i < n
        invariant
            n == o.len(),
            o == tls_hosts.order(),
            i <= n,
            tls_verdict_table@ == Map::new(
                |ip: Seq<char>| key_hosts(ks).contains(ip) || o.take(i as int).to_set().contains(ip),
                |ip: Seq<char>|
                    if key_hosts(ks).contains(ip) {
                        support_text(keyshare_pqc_hosts(ks, gm).contains(ip))
                    } else {
                        "TLS 1.2"@
                    },
            ),
        decreases n - i,
    {
        proof {
            lemma_take_step(o, i as int);
        }
        let host = tls_hosts.get(i);
        if tls_verdict_table.get(host).is_none() {
            tls_verdict_table.put(host.clone(), "TLS 1.2".to_owned());
        }
        assert(tls_verdict_table@ =~= Map::new(
            |ip: Seq<char>| key_hosts(ks).contains(ip) || o.take(i + 1).to_set().contains(ip),
            |ip: Seq<char>|
                if key_hosts(ks).contains(ip) {
                    support_text(keyshare_pqc_hosts(ks, gm).contains(ip))
                } else {
                    "TLS 1.2"@
                },
        ));
        i = i + 1;
    }
    proof {
        lemma_take_all(o);
        assert(tls_verdict_table@ =~= tls_verdicts(tc, ks, gm));
    }

    let mut hosts = SortedNames::new();
    add_names(&mut hosts, &ssh_hosts);
    add_names(&mut hosts, &ks_hosts);
    let mut pqc_hosts = SortedNames::new();
    add_names(&mut pqc_hosts, &ssh_pqc_names);
    add_names(&mut pqc_hosts, &ks_pqc_hosts);
    proof {
        assert(hosts@ =~= capture_hosts(state@));
        assert(pqc_hosts@ =~= capture_pqc_hosts(state@, kex@, gm));
    }
    let ssh_sessions_count = state.ssh_sessions.len();
    let tls_sessions_count = state.tls_sessions.len();
    proof {
        lemma_order_len(state.ssh_sessions.key_order(), state.ssh_sessions@.dom());
        lemma_order_len(state.tls_sessions.key_order(), state.tls_sessions@.dom());
    }
    let total_count = hosts.len();
    let pqc_count = pqc_hosts.len();
    let ssh_hosts_count = ssh_hosts.len();
    let tls_hosts_count = tls_hosts.len();
    Ok(DumpSummary {
        total_count,
        pqc_count,
        ssh_hosts_count,
        ssh_sessions_count,
        ssh_pqc_supported_count: ssh_pqc_count,
        tls_hosts_count,
        tls_sessions_count,
        tls_pqc_supported_count: tls_pqc_count,
        ssh_host_capabilities: ssh_caps,
        ssh_hosts,
        ssh_hosts_pqc: ssh_verdict_table,
        ssh_sessions_results: ssh_results,
        tls_hosts,
        tls_hosts_pqc: tls_verdict_table,
        tls_host_capabilities: tls_caps,
        tls_sessions_results: tls_results,
    })
}

} // verus!
