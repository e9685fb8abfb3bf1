//! Choosing the test server: the candidates named by the server list, and
//! the one that answered its latency probe fastest on average.

use vstd::prelude::*;
use crate::ping::{PingResult, ping_stats, sample_sum};

verus! {

/// A speed-test server: its upload URL, its name and the name of its sponsor.
pub struct OoklaServer {
    pub url: String,
    pub name: String,
    pub sponsor: String,
}

impl View for OoklaServer {
    type V = (Seq<char>, Seq<char>, Seq<char>);

    open spec fn view(&self) -> Self::V {
        (self.url@, self.name@, self.sponsor@)
    }
}

/// What one element of the server list holds in its `url`, `name` and
/// `sponsor` members: the text where the member is a JSON string, else `None`.
pub struct ServerEntry {
    pub url: Option<String>,
    pub name: Option<String>,
    pub sponsor: Option<String>,
}

/// The text of an optional string.
pub open spec fn text_of(o: Option<String>) -> Option<Seq<char>> {
    match o {
        Some(s) => Some(s@),
        None => None,
    }
}

impl View for ServerEntry {
    type V = (Option<Seq<char>>, Option<Seq<char>>, Option<Seq<char>>);

    open spec fn view(&self) -> Self::V {
        (text_of(self.url), text_of(self.name), text_of(self.sponsor))
    }
}

/// Why no server could be chosen.
#[derive(Debug)]
pub enum ServerError {
    /// The server list could not be read as a JSON array; the parser's error.
    InvalidJson(serde_json::Error),
    /// None of the first candidates names a URL, a name and a sponsor.
    NoServers,
    /// No candidate answered its latency probe.
    NoResponse,
}

/// How many entries at the head of the server list are considered.
pub const MAX_CANDIDATES: usize = 5;

/// How many timed requests probe each candidate.
pub const PROBE_SAMPLES: usize = 3;


#[verifier::external_type_specification]
#[verifier::external_body]
pub struct ExJsonError(serde_json::Error);

/// The `url`, `name` and `sponsor` members of each element of the JSON array
/// that `text` holds, in order (`None` for a member that is missing or not a
/// string), or `None` where serde_json does not read `text` as a JSON array
/// (malformed text, another value, or nesting beyond serde_json's depth limit).
pub uninterp spec fn server_list_members(text: Seq<char>) -> Option<
    Seq<(Option<Seq<char>>, Option<Seq<char>>, Option<Seq<char>>)>,
>;

/// Reads the server list.
///
/// Trusted: `serde_json::from_str::<Vec<serde_json::Value>>`, with each
/// element's `url`, `name` and `sponsor` members read by indexing and
/// `Value::as_str`. The contract claims that the outcome is a function of the
/// text alone, named `server_list_members`: `Ok` exactly when serde_json
/// reads the text as a JSON array (it also refuses nesting beyond its depth
/// limit), with one entry per element in order.
#[verifier::external_body]
fn parse_server_entries(text: &str) -> (r: Result<Vec<ServerEntry>, serde_json::Error>)
    ensures
        r matches Ok(v) ==> server_list_members(text@) == Some(v@.map_values(|e: ServerEntry| e@)),
        r is Err ==> server_list_members(text@) is None,
{
    let values: Vec<serde_json::Value> = serde_json::from_str(text)?;
    Ok(values.iter().map(|v| ServerEntry {
        url: v["url"].as_str().map(String::from),
        name: v["name"].as_str().map(String::from),
        sponsor: v["sponsor"].as_str().map(String::from),
    }).collect())
}

/// The entries that name all three of URL, name and sponsor, in order.
pub open spec fn complete_entries(
    s: Seq<(Option<Seq<char>>, Option<Seq<char>>, Option<Seq<char>>)>,
) -> Seq<(Seq<char>, Seq<char>, Seq<char>)>
    decreases s.len(),
{
    if s.len() == 0 {
        Seq::empty()
    } else {
        let rest = complete_entries(s.drop_last());
        match s.last() {
            (Some(u), Some(n), Some(p)) => rest.push((u, n, p)),
            _ => rest,
        }
    }
}

/// The candidate servers of a list: among its first `MAX_CANDIDATES`
/// entries, those that name a URL, a name and a sponsor.
pub open spec fn candidates(
    s: Seq<(Option<Seq<char>>, Option<Seq<char>>, Option<Seq<char>>)>,
) -> Seq<(Seq<char>, Seq<char>, Seq<char>)> {
    if s.len() <= MAX_CANDIDATES {
        complete_entries(s)
    } else {
        complete_entries(s.take(MAX_CANDIDATES as int))
    }
}

/// Picks the candidate servers out of the entries of a server list.
pub fn candidate_servers(entries: &Vec<ServerEntry>) -> (r: Vec<OoklaServer>)
    ensures
        r@.map_values(|c: OoklaServer| c@) == candidates(entries@.map_values(|e: ServerEntry| e@)),
{
    let ghost all = entries@.map_values(|e: ServerEntry| e@);
    let n = if entries.len() < MAX_CANDIDATES { entries.len() } else { MAX_CANDIDATES };
    let mut r: Vec<OoklaServer> = Vec::new();
    let mut i: usize = 0;
    assert(all.take(0) =~= Seq::empty());
    while i < n
        invariant
            i <= n <= entries.len(),
            n == entries.len() || n == MAX_CANDIDATES,
            n <= MAX_CANDIDATES,
            all == entries@.map_values(|e: ServerEntry| e@),
            r@.map_values(|c: OoklaServer| c@) == complete_entries(all.take(i as int)),
        decreases n - i,
    {
        let e = &entries[i];
        assert(all.take(i + 1).drop_last() =~= all.take(i as int));
        assert(all.take(i + 1).last() == e@);
        match (&e.url, &e.name, &e.sponsor) {
            (Some(u), Some(nm), Some(sp)) => {
                let c = OoklaServer { url: u.clone(), name: nm.clone(), sponsor: sp.clone() };
                let ghost before = r@;
                r.push(c);
                assert(r@.map_values(|c: OoklaServer| c@) =~= before.map_values(
                    |c: OoklaServer| c@,
                ).push(c@));
            },
            _ => {},
        }
        i = i + 1;
    }
    assert(all.take(n as int) =~= if all.len() <= MAX_CANDIDATES {
        all
    } else {
        all.take(MAX_CANDIDATES as int)
    });
    r
}

/// Reads the server list and picks its candidate servers.
///
/// `InvalidJson`, carrying the parser's error, where the text is not read as
/// a JSON array, `NoServers` where no
/// candidate remains, else the candidates in list order.
pub fn parse_servers(text: &str) -> (r: Result<Vec<OoklaServer>, ServerError>)
    ensures
        server_list_members(text@) is None <==> r matches Err(ServerError::InvalidJson(_)),
        server_list_members(text@) matches Some(es) ==> {
            if candidates(es).len() == 0 {
                r == Err::<Vec<OoklaServer>, ServerError>(ServerError::NoServers)
            } else {
                r matches Ok(v) && v@.map_values(|c: OoklaServer| c@) == candidates(es)
            }
        },
{
    match parse_server_entries(text) {
        Err(e) => Err(ServerError::InvalidJson(e)),
        Ok(entries) => {
            let c = candidate_servers(&entries);
            if c.len() == 0 {
                assert(c@.map_values(|c: OoklaServer| c@).len() == 0);
                Err(ServerError::NoServers)
            } else {
                Ok(c)
            }
        },
    }
}


/// The result of probing one candidate: the round-trip times (nanoseconds)
/// of the probe requests that were answered.
pub struct ServerProbe {
    pub server: OoklaServer,
    pub samples: Vec<u64>,
}

/// The mean of `a` is below the mean of `b` (both series non-empty).
pub open spec fn mean_below(a: Seq<u64>, b: Seq<u64>) -> bool {
    sample_sum(a) * b.len() < sample_sum(b) * a.len()
}

proof fn lemma_compare_by_quotients(
    a: int,
    an: int,
    b: int,
    bn: int,
    qa: int,
    ra: int,
    qb: int,
    rb: int,
)
    requires
        an > 0,
        bn > 0,
        a == qa * an + ra,
        b == qb * bn + rb,
        0 <= ra < an,
        0 <= rb < bn,
    ensures
        qa < qb ==> a * bn < b * an,
        qa > qb ==> b * an < a * bn,
        qa == qb ==> (a * bn < b * an <==> ra * bn < rb * an),
{
    assert(a * bn == qa * an * bn + ra * bn) by (nonlinear_arith)
        requires a == qa * an + ra;
    assert(b * an == qb * an * bn + rb * an) by (nonlinear_arith)
        requires b == qb * bn + rb;
    assert(ra * bn < an * bn) by (nonlinear_arith)
        requires 0 <= ra < an, bn > 0;
    assert(rb * an < an * bn) by (nonlinear_arith)
        requires 0 <= rb < bn, an > 0;
    assert(0 <= ra * bn && 0 <= rb * an) by (nonlinear_arith)
        requires 0 <= ra, 0 <= rb, an > 0, bn > 0;
    if qa < qb {
        assert((qa + 1) * an * bn <= qb * an * bn) by (nonlinear_arith)
            requires qa < qb, an > 0, bn > 0;
        assert((qa + 1) * an * bn == qa * an * bn + an * bn) by (nonlinear_arith);
    }
    if qa > qb {
        assert((qb + 1) * an * bn <= qa * an * bn) by (nonlinear_arith)
            requires qb < qa, an > 0, bn > 0;
        assert((qb + 1) * an * bn == qb * an * bn + an * bn) by (nonlinear_arith);
    }
}

/// Whether `a_total / a_count < b_total / b_count`, decided exactly.
fn mean_less(a_total: u128, a_count: u128, b_total: u128, b_count: u128) -> (r: bool)
    requires
        0 < a_count <= 0xffff_ffff_ffff_ffff,
        0 < b_count <= 0xffff_ffff_ffff_ffff,
    ensures
        r == (a_total * b_count < b_total * a_count),
{
    let qa = a_total / a_count;
    let ra = a_total % a_count;
    let qb = b_total / b_count;
    let rb = b_total % b_count;
    proof {
        vstd::arithmetic::div_mod::lemma_fundamental_div_mod(a_total as int, a_count as int);
        vstd::arithmetic::div_mod::lemma_fundamental_div_mod(b_total as int, b_count as int);
        assert(qa * a_count == a_count * qa && qb * b_count == b_count * qb) by (nonlinear_arith);
        lemma_compare_by_quotients(
            a_total as int,
            a_count as int,
            b_total as int,
            b_count as int,
            qa as int,
            ra as int,
            qb as int,
            rb as int,
        );
    }
    if qa != qb {
        qa < qb
    } else {
        assert(ra * b_count < 0x1_0000_0000_0000_0000_0000_0000_0000_0000) by (nonlinear_arith)
            requires ra < a_count <= 0xffff_ffff_ffff_ffff, b_count <= 0xffff_ffff_ffff_ffff;
        assert(rb * a_count < 0x1_0000_0000_0000_0000_0000_0000_0000_0000) by (nonlinear_arith)
            requires rb < b_count <= 0xffff_ffff_ffff_ffff, a_count <= 0xffff_ffff_ffff_ffff;
        ra * b_count < rb * a_count
    }
}

proof fn lemma_mean_order(x1: int, n1: int, x2: int, n2: int, x3: int, n3: int)
    requires
        n1 > 0,
        n2 > 0,
        n3 > 0,
    ensures
        x1 * n2 < x2 * n1 && x2 * n3 <= x3 * n2 ==> x1 * n3 < x3 * n1,
        x1 * n2 <= x2 * n1 && x2 * n3 < x3 * n2 ==> x1 * n3 < x3 * n1,
{
    if x1 * n2 < x2 * n1 && x2 * n3 <= x3 * n2 {
        assert(x1 * n2 * n3 < x2 * n1 * n3) by (nonlinear_arith)
            requires x1 * n2 < x2 * n1, n3 > 0;
        assert(x2 * n3 * n1 <= x3 * n2 * n1) by (nonlinear_arith)
            requires x2 * n3 <= x3 * n2, n1 > 0;
        assert(x1 * n3 * n2 < x3 * n1 * n2) by (nonlinear_arith)
            requires x1 * n2 * n3 < x2 * n1 * n3, x2 * n3 * n1 <= x3 * n2 * n1;
        assert(x1 * n3 < x3 * n1) by (nonlinear_arith)
            requires x1 * n3 * n2 < x3 * n1 * n2, n2 > 0;
    }
    if x1 * n2 <= x2 * n1 && x2 * n3 < x3 * n2 {
        assert(x1 * n2 * n3 <= x2 * n1 * n3) by (nonlinear_arith)
            requires x1 * n2 <= x2 * n1, n3 > 0;
        assert(x2 * n3 * n1 < x3 * n2 * n1) by (nonlinear_arith)
            requires x2 * n3 < x3 * n2, n1 > 0;
        assert(x1 * n3 * n2 < x3 * n1 * n2) by (nonlinear_arith)
            requires x1 * n2 * n3 <= x2 * n1 * n3, x2 * n3 * n1 < x3 * n2 * n1;
        assert(x1 * n3 < x3 * n1) by (nonlinear_arith)
            requires x1 * n3 * n2 < x3 * n1 * n2, n2 > 0;
    }
}

/// The probe at `k` answered with the least mean round-trip time, and every
/// probe before it that answered was strictly slower on average: the first
/// of the fastest.
pub open spec fn is_fastest(probes: Seq<ServerProbe>, k: int) -> bool {
    &&& 0 <= k < probes.len()
    &&& probes[k].samples@.len() > 0
    &&& forall|j: int|
        0 <= j < probes.len() && probes[j].samples@.len() > 0 ==> !mean_below(
            #[trigger] probes[j].samples@,
            probes[k].samples@,
        )
    &&& forall|j: int|
        0 <= j < k && probes[j].samples@.len() > 0 ==> mean_below(
            probes[k].samples@,
            #[trigger] probes[j].samples@,
        )
}

/// Chooses the server whose probe answered with the least mean round-trip
/// time; of equally fast ones, the first. `NoResponse` where no probe was
/// answered.
pub fn select_best_server(probes: Vec<ServerProbe>) -> (r: Result<OoklaServer, ServerError>)
    ensures
        r is Err <==> forall|j: int| 0 <= j < probes@.len() ==> #[trigger] probes@[j].samples@.len() == 0,
        r matches Err(e) ==> e == ServerError::NoResponse,
        r matches Ok(s) ==> exists|k: int| is_fastest(probes@, k) && s@ == #[trigger] probes@[k].server@,
{
    let mut best: Option<(usize, PingResult)> = None;
    let mut i: usize = 0;
    while i < probes.len()
        invariant
            i <= probes.len(),
            best matches Some((k, p)) ==> {
                &&& k < i
                &&& p.describes(probes@[k as int].samples@)
                &&& forall|j: int|
                    0 <= j < i && probes@[j].samples@.len() > 0 ==> !mean_below(
                        #[trigger] probes@[j].samples@,
                        probes@[k as int].samples@,
                    )
                &&& forall|j: int|
                    0 <= j < k && probes@[j].samples@.len() > 0 ==> mean_below(
                        probes@[k as int].samples@,
                        #[trigger] probes@[j].samples@,
                    )
            },
            best is None ==> forall|j: int| 0 <= j < i ==> #[trigger] probes@[j].samples@.len() == 0,
        decreases probes.len() - i,
    {
        match ping_stats(&probes[i].samples) {
            Err(_) => {},
            Ok(p) => {
                let replace = match &best {
                    None => true,
                    Some((_, b)) => mean_less(
                        p.total_ns,
                        p.count as u128,
                        b.total_ns,
                        b.count as u128,
                    ),
                };
                proof {
                    if let Some((k, _)) = best {
                        let sk = probes@[k as int].samples@;
                        let si = probes@[i as int].samples@;
                        assert forall|j: int|
                            0 <= j <= i && probes@[j].samples@.len() > 0 implies (
                            replace ==> !mean_below(#[trigger] probes@[j].samples@, si)) && (
                            !replace ==> !mean_below(probes@[j].samples@, sk)) by {
                            let sj = probes@[j].samples@;
                            lemma_mean_order(
                                sample_sum(sj) as int,
                                sj.len() as int,
                                sample_sum(si) as int,
                                si.len() as int,
                                sample_sum(sk) as int,
                                sk.len() as int,
                            );
                        }
                        assert forall|j: int|
                            0 <= j < i && probes@[j].samples@.len() > 0 && replace implies
                            mean_below(si, #[trigger] probes@[j].samples@) by {
                            let sj = probes@[j].samples@;
                            lemma_mean_order(
                                sample_sum(si) as int,
                                si.len() as int,
                                sample_sum(sk) as int,
                                sk.len() as int,
                                sample_sum(sj) as int,
                                sj.len() as int,
                            );
                        }
                    }
                }
                if replace {
                    best = Some((i, p));
                }
            },
        }
        i = i + 1;
    }
    match best {
        None => Err(ServerError::NoResponse),
        Some((k, _)) => {
            let ghost all = probes@;
            let mut probes = probes;
            let chosen = probes.swap_remove(k);
            assert(is_fastest(all, k as int) && chosen.server@ == all[k as int].server@);
            Ok(chosen.server)
        },
    }
}

} // verus!
