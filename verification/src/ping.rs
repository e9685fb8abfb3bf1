//! Latency measurement: the ping address of a server and the statistics of
//! a series of round-trip samples.

use vstd::prelude::*;
use crate::text::{chars_of, push_chars};

verus! {

/// How many timed requests measure the latency of the chosen server.
pub const PING_SAMPLES: usize = 10;

/// The position of the last `c` in `s`, or -1 where `s` holds none.
pub open spec fn last_index_of(s: Seq<char>, c: char) -> int
    decreases s.len(),
{
    if s.len() == 0 {
        -1
    } else if s.last() == c {
        s.len() - 1
    } else {
        last_index_of(s.drop_last(), c)
    }
}

/// `last_index_of` finds an occurrence of `c` exactly when there is one, and
/// no `c` stands after it.
pub proof fn lemma_last_index_of(s: Seq<char>, c: char)
    ensures
        -1 <= last_index_of(s, c) < s.len(),
        last_index_of(s, c) >= 0 ==> s[last_index_of(s, c)] == c,
        last_index_of(s, c) == -1 <==> !s.contains(c),
        forall|j: int| last_index_of(s, c) < j < s.len() ==> s[j] != c,
    decreases s.len(),
{
    if s.len() > 0 {
        lemma_last_index_of(s.drop_last(), c);
        if s.last() != c {
            if s.contains(c) {
                let k = choose|k: int| 0 <= k < s.len() && s[k] == c;
                assert(s.drop_last()[k] == c);
            }
            if s.drop_last().contains(c) {
                let k = choose|k: int| 0 <= k < s.len() - 1 && s.drop_last()[k] == c;
                assert(s[k] == c);
            }
            assert forall|j: int| last_index_of(s, c) < j < s.len() implies s[j] != c by {
                if j < s.len() - 1 {
                    assert(s.drop_last()[j] == s[j]);
                }
            }
        }
    }
}

/// Removes the last path segment of a URL: everything from its last `/` on.
///
/// A URL without `/` has no such segment; the caller must not pass one.
pub fn strip_path(url: &str) -> (r: String)
    requires
        url@.contains('/'),
    ensures
        r@ == url@.take(last_index_of(url@, '/')),
        url@ == r@ + seq!['/'] + url@.skip(last_index_of(url@, '/') + 1),
        !url@.skip(last_index_of(url@, '/') + 1).contains('/'),
{
    let v = chars_of(url);
    proof {
        lemma_last_index_of(url@, '/');
    }
    let mut j = v.len();
    assert(url@.take(j as int) =~= url@);
    while j > 0 && v[j - 1] != '/'
        invariant
            j <= v.len(),
            v@ == url@,
            last_index_of(url@, '/') == last_index_of(url@.take(j as int), '/'),
        decreases j,
    {
        assert(url@.take(j as int).drop_last() =~= url@.take(j - 1));
        j = j - 1;
    }
    proof {
        if j == 0 {
            assert(url@.take(0) =~= Seq::<char>::empty());
        } else {
            assert(url@.take(j as int).last() == '/');
        }
    }
    let mut r = String::new();
    push_chars(&mut r, &v, 0, j - 1);
    proof {
        let k = last_index_of(url@, '/');
        let tail = url@.skip(k + 1);
        assert(url@ =~= r@ + seq!['/'] + tail);
        assert forall|i: int| 0 <= i < tail.len() implies tail[i] != '/' by {
            assert(tail[i] == url@[k + 1 + i]);
        }
    }
    r
}

/// The address probed to measure latency: the server URL with its last
/// segment replaced by `ping.php`. `None` for a URL without `/`.
pub fn ping_url(url: &str) -> (r: Option<String>)
    ensures
        r is None <==> !url@.contains('/'),
        r matches Some(u) ==> u@ == url@.take(last_index_of(url@, '/')) + "/ping.php"@,
{
    if contains_slash(url) {
        let mut s = strip_path(url);
        s.append("/ping.php");
        Some(s)
    } else {
        None
    }
}

/// Whether `s` holds a `/`.
pub fn contains_slash(s: &str) -> (b: bool)
    ensures
        b == s@.contains('/'),
{
    let v = chars_of(s);
    let mut i: usize = 0;
    while i < v.len()
        invariant
            i <= v.len(),
            v@ == s@,
            forall|k: int| 0 <= k < i ==> v@[k] != '/',
        decreases v.len() - i,
    {
        if v[i] == '/' {
            return true;
        }
        i = i + 1;
    }
    false
}


/// The sum of the samples.
pub open spec fn sample_sum(s: Seq<u64>) -> nat
    decreases s.len(),
{
    if s.len() == 0 {
        0
    } else {
        sample_sum(s.drop_last()) + s.last() as nat
    }
}

/// The smallest sample (meaningful for a non-empty series).
pub open spec fn sample_min(s: Seq<u64>) -> u64
    decreases s.len(),
{
    if s.len() <= 1 {
        s[0]
    } else if s.last() < sample_min(s.drop_last()) {
        s.last()
    } else {
        sample_min(s.drop_last())
    }
}

/// The largest sample (meaningful for a non-empty series).
pub open spec fn sample_max(s: Seq<u64>) -> u64
    decreases s.len(),
{
    if s.len() <= 1 {
        s[0]
    } else if s.last() > sample_max(s.drop_last()) {
        s.last()
    } else {
        sample_max(s.drop_last())
    }
}

/// The distance between two samples.
pub open spec fn distance(a: u64, b: u64) -> nat {
    if a >= b {
        (a - b) as nat
    } else {
        (b - a) as nat
    }
}

/// The sum of the distances between consecutive samples.
pub open spec fn jitter_sum(s: Seq<u64>) -> nat
    decreases s.len(),
{
    if s.len() < 2 {
        0
    } else {
        jitter_sum(s.drop_last()) + distance(s[s.len() - 2], s.last())
    }
}

/// Statistics of a non-empty series of round-trip samples, in nanoseconds.
///
/// The average is `total_ns / count`; the jitter is the mean distance between
/// consecutive samples, `jitter_total_ns / (count - 1)`, and 0 for a single
/// sample.
pub struct PingResult {
    pub count: usize,
    pub total_ns: u128,
    pub min_ns: u64,
    pub max_ns: u64,
    pub jitter_total_ns: u128,
}

/// Why no statistics could be computed.
#[derive(Debug, Clone, Copy, PartialEq, Eq, Structural)]
pub enum PingError {
    /// Not a single sample was collected.
    NoSamples,
}

impl PingResult {
    /// These are the statistics of the series `s`.
    pub open spec fn describes(&self, s: Seq<u64>) -> bool {
        &&& s.len() > 0
        &&& self.count == s.len()
        &&& self.total_ns == sample_sum(s)
        &&& self.min_ns == sample_min(s)
        &&& self.max_ns == sample_max(s)
        &&& self.jitter_total_ns == jitter_sum(s)
    }
}

proof fn lemma_sum_bound(s: Seq<u64>)
    ensures
        sample_sum(s) <= s.len() * 0xffff_ffff_ffff_ffffnat,
        jitter_sum(s) <= s.len() * 0xffff_ffff_ffff_ffffnat,
    decreases s.len(),
{
    if s.len() > 0 {
        lemma_sum_bound(s.drop_last());
        let n = s.len() as int;
        assert((n - 1) * 0xffff_ffff_ffff_ffff + 0xffff_ffff_ffff_ffff == n * 0xffff_ffff_ffff_ffff)
            by (nonlinear_arith);
    }
}

proof fn lemma_bound_fits(n: int, x: int)
    requires
        0 <= n <= 0xffff_ffff_ffff_ffff,
        0 <= x <= n * 0xffff_ffff_ffff_ffff,
    ensures
        x < 0x1_0000_0000_0000_0000_0000_0000_0000_0000,
{
    assert(n * 0xffff_ffff_ffff_ffff <= 0xffff_ffff_ffff_ffff * 0xffff_ffff_ffff_ffff)
        by (nonlinear_arith)
        requires
            0 <= n <= 0xffff_ffff_ffff_ffff,
    ;
}

/// Computes the statistics of a series of round-trip samples (nanoseconds):
/// their count, sum, smallest, largest, and the sum of the distances between
/// consecutive samples. Fails exactly when there is no sample.
pub fn ping_stats(samples: &Vec<u64>) -> (r: Result<PingResult, PingError>)
    ensures
        samples@.len() == 0 <==> r is Err,
        r matches Ok(p) ==> p.describes(samples@),
        r matches Err(e) ==> e == PingError::NoSamples,
{
    let n = samples.len();
    if n == 0 {
        return Err(PingError::NoSamples);
    }
    let mut total: u128 = samples[0] as u128;
    let mut lo: u64 = samples[0];
    let mut hi: u64 = samples[0];
    let mut jitter: u128 = 0;
    let mut i: usize = 1;
    assert(samples@.take(1).drop_last() =~= Seq::<u64>::empty());
    assert(samples@.take(1).last() == samples@[0]);
    assert(sample_sum(Seq::<u64>::empty()) == 0);
    while i < n
        invariant
            1 <= i <= n == samples@.len(),
            total == sample_sum(samples@.take(i as int)),
            lo == sample_min(samples@.take(i as int)),
            hi == sample_max(samples@.take(i as int)),
            jitter == jitter_sum(samples@.take(i as int)),
        decreases n - i,
    {
        let x = samples[i];
        let prev = samples[i - 1];
        let ghost t = samples@.take(i + 1);
        assert(t.drop_last() =~= samples@.take(i as int));
        proof {
            lemma_sum_bound(t);
            lemma_bound_fits((i + 1) as int, sample_sum(t) as int);
            lemma_bound_fits((i + 1) as int, jitter_sum(t) as int);
        }
        total = total + x as u128;
        let d: u64 = if x >= prev { x - prev } else { prev - x };
        jitter = jitter + d as u128;
        if x < lo {
            lo = x;
        }
        if x > hi {
            hi = x;
        }
        i = i + 1;
    }
    assert(samples@.take(n as int) =~= samples@);
    Ok(PingResult { count: n, total_ns: total, min_ns: lo, max_ns: hi, jitter_total_ns: jitter })
}

/// The statistics follow the series sample by sample: adding a sample adds
/// it to the sum, lowers the minimum or raises the maximum where it lies
/// beyond them, and adds its distance to the sample just before it to the
/// jitter sum (a single sample has none). So the jitter sum runs over
/// consecutive pairs only.
pub proof fn lemma_stats_append(s: Seq<u64>, x: u64)
    ensures
        sample_sum(s.push(x)) == sample_sum(s) + x,
        sample_min(seq![x]) == x,
        sample_max(seq![x]) == x,
        jitter_sum(seq![x]) == 0,
        s.len() > 0 ==> sample_min(s.push(x)) == if x < sample_min(s) {
            x
        } else {
            sample_min(s)
        },
        s.len() > 0 ==> sample_max(s.push(x)) == if x > sample_max(s) {
            x
        } else {
            sample_max(s)
        },
        s.len() > 0 ==> jitter_sum(s.push(x)) == jitter_sum(s) + if x >= s.last() {
            x - s.last()
        } else {
            s.last() - x
        },
{
    assert(s.push(x).drop_last() =~= s);
    assert(s.push(x).last() == x);
    assert(seq![x].drop_last() =~= Seq::<u64>::empty());
    if s.len() > 0 {
        assert(s.push(x)[s.len() - 1] == s.last());
    }
}

/// Every sample lies between the smallest and the largest; the sum lies
/// between `count * min` and `count * max`, so the average lies between the
/// extremes; and the summed jitter is at most `(count - 1) * (max - min)`.
pub proof fn lemma_ping_stats_bounds(s: Seq<u64>)
    requires
        s.len() > 0,
    ensures
        forall|i: int| 0 <= i < s.len() ==> sample_min(s) <= #[trigger] s[i] <= sample_max(s),
        s.len() * sample_min(s) <= sample_sum(s) <= s.len() * sample_max(s),
        jitter_sum(s) <= (s.len() - 1) * (sample_max(s) - sample_min(s)),
    decreases s.len(),
{
    if s.len() > 1 {
        let p = s.drop_last();
        lemma_ping_stats_bounds(p);
        let n = s.len() as int;
        let (mn, mx, pmn, pmx) = (sample_min(s) as int, sample_max(s) as int, sample_min(p) as int, sample_max(p) as int);
        assert forall|i: int| 0 <= i < s.len() implies mn <= #[trigger] s[i] <= mx by {
            if i < n - 1 {
                assert(p[i] == s[i]);
            }
        }
        assert(p[n - 2] == s[n - 2]);
        let (sp, jp) = (sample_sum(p) as int, jitter_sum(p) as int);
        let last = s.last() as int;
        assert(mn <= pmn && pmx <= mx);
        assert((n - 1) * mn <= (n - 1) * pmn) by (nonlinear_arith)
            requires mn <= pmn, n >= 1;
        assert((n - 1) * pmx <= (n - 1) * mx) by (nonlinear_arith)
            requires pmx <= mx, n >= 1;
        assert((n - 2) * (pmx - pmn) <= (n - 2) * (mx - mn)) by (nonlinear_arith)
            requires pmx - pmn <= mx - mn, n >= 2;
        assert(n * mn == (n - 1) * mn + mn && n * mx == (n - 1) * mx + mx) by (nonlinear_arith);
        assert((n - 1) * (mx - mn) == (n - 2) * (mx - mn) + (mx - mn)) by (nonlinear_arith);
        assert(mn <= last <= mx);
    } else {
        assert(s.drop_last() =~= Seq::<u64>::empty());
        assert(sample_sum(s.drop_last()) == 0);
        assert(1 * s[0] == s[0]);
    }
}

} // verus!
