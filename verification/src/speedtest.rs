//! Throughput tests: the upload payload, the transfer addresses, the number
//! of parallel workers, and the rate and progress figures shown while a test
//! runs.

use vstd::prelude::*;
use crate::ping::{contains_slash, last_index_of, strip_path};
use crate::text::{decimal, push_decimal};

verus! {

/// The size of each download requested from the server, in bytes.
pub const DOWNLOAD_SIZE: usize = 50_000_000;

/// The size of each upload sent to the server, in bytes.
pub const UPLOAD_CHUNK: usize = 1_048_576;

/// The state the payload generator starts from.
pub const PAYLOAD_SEED: u64 = 0xDEAD_BEEF_CAFE_1337;

/// One step of the xorshift64 generator (shifts 13, 7, 17).
pub open spec fn xorshift_step(x: u64) -> u64 {
    let a = x ^ (x << 13u64);
    let b = a ^ (a >> 7u64);
    b ^ (b << 17u64)
}

/// The generator's state after `n` steps from `PAYLOAD_SEED`.
pub open spec fn payload_state(n: nat) -> u64
    decreases n,
{
    if n == 0 {
        PAYLOAD_SEED
    } else {
        xorshift_step(payload_state((n - 1) as nat))
    }
}

/// Byte `k` (0 for the least significant) of `x`: little-endian order.
pub open spec fn le_byte(x: u64, k: nat) -> u8 {
    (x >> ((8 * k) as u64)) as u8
}

/// Byte `i` of the payload: the states after the first, second, ... step
/// written one after the other as little-endian 8-byte words.
pub open spec fn payload_byte(i: nat) -> u8 {
    le_byte(payload_state(i / 8 + 1), i % 8)
}

proof fn lemma_block_position(b: nat, k: nat)
    requires
        k < 8,
    ensures
        (8 * b + k) / 8 == b,
        (8 * b + k) % 8 == k,
{
    vstd::arithmetic::div_mod::lemma_fundamental_div_mod_converse(
        (8 * b + k) as int,
        8,
        b as int,
        k as int,
    );
}

/// Generates `size` pseudo-random bytes with xorshift64, so that the upload
/// body cannot be compressed on the way.
pub fn random_payload(size: usize) -> (buf: Vec<u8>)
    ensures
        buf@.len() == size,
        forall|i: int| 0 <= i < size ==> #[trigger] buf@[i] == payload_byte(i as nat),
{
    let mut buf: Vec<u8> = Vec::with_capacity(size);
    let mut state: u64 = PAYLOAD_SEED;
    let ghost mut blocks: nat = 0;
    while buf.len() < size
        invariant
            buf@.len() <= size,
            buf@.len() < size ==> buf@.len() == 8 * blocks,
            state == payload_state(blocks),
            forall|i: int| 0 <= i < buf@.len() ==> #[trigger] buf@[i] == payload_byte(i as nat),
        decreases size - buf@.len(),
    {
        state ^= state << 13;
        state ^= state >> 7;
        state ^= state << 17;
        proof {
            blocks = blocks + 1;
        }
        let mut k: u64 = 0;
        while k < 8 && buf.len() < size
            invariant
                k <= 8,
                blocks >= 1,
                buf@.len() <= size,
                buf@.len() == 8 * (blocks - 1) + k,
                state == payload_state(blocks),
                forall|i: int| 0 <= i < buf@.len() ==> #[trigger] buf@[i] == payload_byte(i as nat),
            decreases 8 - k,
        {
            let byte = (state >> (8 * k)) as u8;
            proof {
                lemma_block_position((blocks - 1) as nat, k as nat);
            }
            buf.push(byte);
            k = k + 1;
        }
    }
    buf
}

/// The payload is one run of the generator from the seed: the first word is
/// the state after one step, and each next word is one more step from the
/// word before, at every position of the buffer.
pub proof fn lemma_payload_words(i: nat)
    ensures
        payload_state(0) == PAYLOAD_SEED,
        payload_state(i + 1) == xorshift_step(payload_state(i)),
        i < 8 ==> payload_byte(i) == le_byte(xorshift_step(PAYLOAD_SEED), i),
        payload_byte(i + 8) == le_byte(xorshift_step(payload_state(i / 8 + 1)), i % 8),
{
    lemma_block_position(i / 8 + 1, i % 8);
    vstd::arithmetic::div_mod::lemma_fundamental_div_mod(i as int, 8);
    assert(8 * (i / 8 + 1) + i % 8 == i + 8) by (nonlinear_arith)
        requires
            i == 8 * (i / 8) + i % 8,
    ;
    assert(payload_state((i / 8 + 2) as nat) == xorshift_step(payload_state(i / 8 + 1)));
    if i < 8 {
        assert(i / 8 == 0 && i % 8 == i);
        assert(payload_state(1) == xorshift_step(payload_state(0)));
    }
}

/// Any shorter payload is a prefix of a longer one.
pub proof fn lemma_payload_prefix(short: Seq<u8>, long: Seq<u8>)
    requires
        short.len() <= long.len(),
        forall|i: int| 0 <= i < short.len() ==> #[trigger] short[i] == payload_byte(i as nat),
        forall|i: int| 0 <= i < long.len() ==> #[trigger] long[i] == payload_byte(i as nat),
    ensures
        short == long.take(short.len() as int),
{
    assert(short =~= long.take(short.len() as int));
}


/// The address a transfer worker uses: the server URL with its last segment
/// replaced by `download?size=50000000` for a download, by `upload` for an
/// upload. `None` for a URL without `/`.
pub fn transfer_url(base_url: &str, is_download: bool) -> (r: Option<String>)
    ensures
        r is None <==> !base_url@.contains('/'),
        r matches Some(u) ==> u@ == base_url@.take(last_index_of(base_url@, '/')) + (
        if is_download {
            "/download?size="@ + decimal(DOWNLOAD_SIZE as nat)
        } else {
            "/upload"@
        }),
{
    if !contains_slash(base_url) {
        return None;
    }
    let mut s = strip_path(base_url);
    if is_download {
        s.append("/download?size=");
        push_decimal(&mut s, DOWNLOAD_SIZE as u64);
        assert(s@ =~= base_url@.take(last_index_of(base_url@, '/')) + ("/download?size="@
            + decimal(DOWNLOAD_SIZE as nat)));
    } else {
        s.append("/upload");
    }
    Some(s)
}

/// The most transfer workers a test runs at once.
pub const MAX_WORKERS: usize = 8;

/// The number of logical CPUs available to this process.
///
/// Trusted: `num_cpus::get`, which its documentation says always returns at
/// least 1. What count comes back depends on the machine and is not stated.
#[verifier::external_body]
fn available_cpus() -> (n: usize)
    ensures
        n >= 1,
{
    num_cpus::get()
}

/// One worker per CPU, at most `MAX_WORKERS`.
pub fn workers_for(cpus: usize) -> (n: usize)
    ensures
        n == if cpus < MAX_WORKERS { cpus } else { MAX_WORKERS },
{
    if cpus < MAX_WORKERS {
        cpus
    } else {
        MAX_WORKERS
    }
}

/// The number of transfer workers for this machine: one per available CPU,
/// at most `MAX_WORKERS`, and at least one.
pub fn worker_count() -> (n: usize)
    ensures
        1 <= n <= MAX_WORKERS,
{
    workers_for(available_cpus())
}

/// The rate shown while a test runs, in hundredths of Mbps: `bytes` moved in
/// `elapsed_ns` nanoseconds make `bytes * 8 / 10^6` megabits per
/// `elapsed_ns / 10^9` seconds, that is `bytes * 800_000 / elapsed_ns`
/// hundredths, rounded down. `None` until more than 0.1 s have passed.
pub fn rate_hundredths(bytes: u64, elapsed_ns: u64) -> (r: Option<u64>)
    ensures
        r is None <==> elapsed_ns <= 100_000_000,
        r matches Some(v) ==> v == (bytes as nat * 800_000) / (elapsed_ns as nat),
{
    if elapsed_ns <= 100_000_000 {
        return None;
    }
    let num: u128 = (bytes as u128) * 800_000;
    let q: u128 = num / (elapsed_ns as u128);
    proof {
        vstd::arithmetic::div_mod::lemma_fundamental_div_mod(num as int, elapsed_ns as int);
        assert(q * elapsed_ns <= num) by (nonlinear_arith)
            requires
                num as int == (elapsed_ns as int) * (q as int) + (num as int) % (elapsed_ns as int),
                (num as int) % (elapsed_ns as int) >= 0,
        ;
        assert(q < 0x1_0000_0000_0000_0000) by (nonlinear_arith)
            requires
                q * elapsed_ns <= num,
                elapsed_ns > 100_000_000,
                num <= 0xffff_ffff_ffff_ffff * 800_000,
                q >= 0,
        ;
    }
    Some(q as u64)
}

/// How far a test of `duration_s` seconds has got after `elapsed_ns`
/// nanoseconds, in whole percent, rounded down.
pub open spec fn progress(elapsed_ns: nat, duration_s: nat) -> nat {
    (elapsed_ns * 100) / (duration_s * 1_000_000_000)
}

/// Progress never goes back as time passes, and stays at most 100 until the
/// test's duration has passed (below 100 before it).
pub proof fn lemma_progress_monotone_bounded(e1: nat, e2: nat, duration_s: nat)
    requires
        duration_s > 0,
    ensures
        e1 <= e2 ==> progress(e1, duration_s) <= progress(e2, duration_s),
        e1 <= duration_s * 1_000_000_000 ==> progress(e1, duration_s) <= 100,
        e1 < duration_s * 1_000_000_000 ==> progress(e1, duration_s) < 100,
{
    let den = (duration_s * 1_000_000_000) as int;
    assert(den > 0) by (nonlinear_arith)
        requires duration_s > 0, den == duration_s * 1_000_000_000;
    if e1 <= e2 {
        assert(e1 * 100 <= e2 * 100);
        vstd::arithmetic::div_mod::lemma_div_is_ordered((e1 * 100) as int, (e2 * 100) as int, den);
    }
    if e1 <= den {
        vstd::arithmetic::div_mod::lemma_div_is_ordered((e1 * 100) as int, den * 100, den);
        vstd::arithmetic::div_mod::lemma_div_by_multiple(100, den);
        assert(den * 100 == 100 * den);
    }
    if e1 < den {
        vstd::arithmetic::div_mod::lemma_fundamental_div_mod((e1 * 100) as int, den);
        let q = (e1 * 100) as int / den;
        let rr = (e1 * 100) as int % den;
        assert(q < 100) by (nonlinear_arith)
            requires e1 * 100 == den * q + rr, 0 <= rr, e1 < den, den > 0;
    }
}

/// How far a test of `duration_s` seconds has got after `elapsed_ns`
/// nanoseconds, in whole percent, rounded down (past the end it exceeds 100).
pub fn progress_percent(elapsed_ns: u64, duration_s: u64) -> (r: u64)
    requires
        duration_s > 0,
    ensures
        r == progress(elapsed_ns as nat, duration_s as nat),
{
    let num: u128 = (elapsed_ns as u128) * 100;
    let den: u128 = (duration_s as u128) * 1_000_000_000;
    let q: u128 = num / den;
    proof {
        vstd::arithmetic::div_mod::lemma_fundamental_div_mod(num as int, den as int);
        assert(q * den <= num) by (nonlinear_arith)
            requires
                num as int == (den as int) * (q as int) + (num as int) % (den as int),
                (num as int) % (den as int) >= 0,
        ;
        assert(q < 0x1_0000_0000_0000_0000) by (nonlinear_arith)
            requires
                q * den <= num,
                den >= 1_000_000_000,
                num <= 0xffff_ffff_ffff_ffff * 100,
                q >= 0,
        ;
    }
    q as u64
}


/// One tick of a running test's progress display: `None` once the test's
/// duration has passed (its whole seconds reach `duration_s`), so the test
/// stops; otherwise the progress in percent, which is then below 100.
pub fn tui_progress(elapsed_ns: u64, duration_s: u64) -> (r: Option<u64>)
    ensures
        r is None <==> elapsed_ns / 1_000_000_000 >= duration_s,
        r matches Some(p) ==> p == progress(elapsed_ns as nat, duration_s as nat) && p < 100,
{
    if elapsed_ns / 1_000_000_000 >= duration_s {
        return None;
    }
    proof {
        vstd::arithmetic::div_mod::lemma_fundamental_div_mod(elapsed_ns as int, 1_000_000_000);
        assert(elapsed_ns < duration_s * 1_000_000_000) by (nonlinear_arith)
            requires
                elapsed_ns == 1_000_000_000 * (elapsed_ns / 1_000_000_000) + elapsed_ns % 1_000_000_000,
                elapsed_ns % 1_000_000_000 < 1_000_000_000,
                elapsed_ns / 1_000_000_000 < duration_s,
        ;
        lemma_progress_monotone_bounded(elapsed_ns as nat, elapsed_ns as nat, duration_s as nat);
    }
    Some(progress_percent(elapsed_ns, duration_s))
}

} // verus!
