//! The audit trail: the timestamp of a run and the CSV and JSON records that
//! each run adds to its output file.

use vstd::prelude::*;
use crate::ping::{last_index_of, lemma_last_index_of};
use crate::escape::{csv_field, csv_needs_quotes, json_escape, push_csv_field, push_json_escaped};
use crate::text::{
    trim, trim_start, trim_end, trim_end_char, is_white_space, lemma_trim_edges, all_white_space,
    lemma_trim_start_skips_white, lemma_trim_end_skips_white, lemma_trim_end_of_tail,
    lemma_trim_end_split, lemma_decimal_digits, chars_of, skip_white_front, skip_white_back, skip_char_back, push_chars,
    decimal, two_digits, fixed2, push_decimal, push_two_digits, push_fixed2, push_char,
};

verus! {

/// The text of a timestamp `secs` seconds after the Unix epoch:
/// `epoch+<days>d HH:MM:SSZ`.
pub open spec fn epoch_text(secs: nat) -> Seq<char> {
    "epoch+"@ + decimal(secs / 86400) + "d "@ + two_digits((secs / 3600) % 24) + seq![':']
        + two_digits((secs / 60) % 60) + seq![':'] + two_digits(secs % 60) + seq!['Z']
}

/// Writes the timestamp of the instant `secs` seconds after the Unix epoch.
pub fn epoch_timestamp(secs: u64) -> (r: String)
    ensures
        r@ == epoch_text(secs as nat),
{
    let mut s = String::new();
    s.append("epoch+");
    push_decimal(&mut s, secs / 86400);
    s.append("d ");
    push_two_digits(&mut s, (secs / 3600) % 24);
    push_char(&mut s, ':');
    push_two_digits(&mut s, (secs / 60) % 60);
    push_char(&mut s, ':');
    push_two_digits(&mut s, secs % 60);
    push_char(&mut s, 'Z');
    assert(s@ =~= epoch_text(secs as nat));
    s
}

#[verifier::external_type_specification]
#[verifier::external_body]
pub struct ExSystemTime(std::time::SystemTime);

#[verifier::external_type_specification]
#[verifier::external_body]
pub struct ExSystemTimeError(std::time::SystemTimeError);

/// The current instant of the system clock.
///
/// Trusted: `std::time::SystemTime::now`. Nothing is stated of the value: it
/// is whatever the clock says.
#[verifier::external_body]
fn system_now() -> std::time::SystemTime {
    std::time::SystemTime::now()
}

/// How long after the Unix epoch the instant `t` is; an error where `t` lies
/// before it.
///
/// Trusted: `SystemTime::duration_since`, called with `UNIX_EPOCH`. Nothing is
/// stated of the outcome: it depends on the instant, which only the clock
/// gave.
#[verifier::external_body]
fn since_unix_epoch(t: &std::time::SystemTime) -> Result<
    std::time::Duration,
    std::time::SystemTimeError,
> {
    t.duration_since(std::time::UNIX_EPOCH)
}

/// The whole seconds of a duration.
///
/// Trusted: `Duration::as_secs`. Nothing is stated of the value: the
/// duration is opaque here.
#[verifier::external_body]
fn whole_seconds(d: &std::time::Duration) -> u64 {
    d.as_secs()
}

/// Whole seconds since the Unix epoch by the system clock, or `None` for a
/// clock set before the epoch.
fn clock_seconds() -> Option<u64> {
    let now = system_now();
    match since_unix_epoch(&now) {
        Ok(d) => Some(whole_seconds(&d)),
        Err(_) => None,
    }
}

/// The seconds a timestamp counts: those since the epoch, or 0 for a clock
/// set before the epoch.
pub open spec fn seconds_or_zero(since_epoch: Option<u64>) -> nat {
    match since_epoch {
        Some(s) => s as nat,
        None => 0,
    }
}

/// The timestamp of a clock reading given as the whole seconds since the
/// Unix epoch; a clock set before the epoch (`None`) counts as 0 seconds,
/// `epoch+0d 00:00:00Z`.
pub fn clock_timestamp(since_epoch: Option<u64>) -> (r: String)
    ensures
        r@ == epoch_text(seconds_or_zero(since_epoch)),
{
    match since_epoch {
        Some(s) => epoch_timestamp(s),
        None => epoch_timestamp(0),
    }
}

/// The timestamp of the current instant, by the system clock, in the form
/// `epoch+<days>d HH:MM:SSZ`; a clock set before the epoch gives
/// `epoch+0d 00:00:00Z`.
pub fn now_iso() -> (r: String)
    ensures
        exists|since_epoch: Option<u64>| r@ == #[trigger] epoch_text(seconds_or_zero(since_epoch)),
{
    let since_epoch = clock_seconds();
    clock_timestamp(since_epoch)
}

/// One audited run. Latencies are in hundredths of a millisecond, rates in
/// hundredths of a Mbps, so that each is written with exactly two decimals.
pub struct AuditRecord {
    pub timestamp: String,
    pub server_sponsor: String,
    pub server_name: String,
    pub ping_avg_ms_hundredths: u64,
    pub ping_min_ms_hundredths: u64,
    pub ping_max_ms_hundredths: u64,
    pub jitter_ms_hundredths: u64,
    pub dl_mbps_hundredths: u64,
    pub ul_mbps_hundredths: u64,
}

/// The first line of a CSV audit file.
pub open spec fn csv_header() -> Seq<char> {
    "timestamp,server_sponsor,server_name,ping_avg_ms,ping_min_ms,ping_max_ms,jitter_ms,dl_mbps,ul_mbps\n"@
}

/// The CSV line of a record, fields separated by commas, texts written as
/// CSV fields (quoted where needed), numbers with two decimals, ended by a
/// newline.
pub open spec fn csv_row(r: AuditRecord) -> Seq<char> {
    csv_field(r.timestamp@) + seq![','] + csv_field(r.server_sponsor@) + seq![','] + csv_field(
        r.server_name@,
    ) + seq![',']
        + fixed2(r.ping_avg_ms_hundredths as nat) + seq![','] + fixed2(
        r.ping_min_ms_hundredths as nat,
    ) + seq![','] + fixed2(r.ping_max_ms_hundredths as nat) + seq![','] + fixed2(
        r.jitter_ms_hundredths as nat,
    ) + seq![','] + fixed2(r.dl_mbps_hundredths as nat) + seq![','] + fixed2(
        r.ul_mbps_hundredths as nat,
    ) + seq!['\n']
}

/// What a run appends to a CSV audit file: the header first where the file
/// does not exist yet, then the record's line.
pub open spec fn csv_text(r: AuditRecord, file_exists: bool) -> Seq<char> {
    if file_exists {
        csv_row(r)
    } else {
        csv_header() + csv_row(r)
    }
}

fn push_csv_number(s: &mut String, v: u64)
    ensures
        final(s)@ == old(s)@ + seq![','] + fixed2(v as nat),
{
    push_char(s, ',');
    push_fixed2(s, v);
}

/// The text a run appends to a CSV audit file.
pub fn csv_entry(rec: &AuditRecord, file_exists: bool) -> (r: String)
    ensures
        r@ == csv_text(*rec, file_exists),
{
    let mut s = String::new();
    if !file_exists {
        s.append(
            "timestamp,server_sponsor,server_name,ping_avg_ms,ping_min_ms,ping_max_ms,jitter_ms,dl_mbps,ul_mbps\n",
        );
    }
    let ghost head = s@;
    push_csv_field(&mut s, rec.timestamp.as_str());
    push_char(&mut s, ',');
    push_csv_field(&mut s, rec.server_sponsor.as_str());
    push_char(&mut s, ',');
    push_csv_field(&mut s, rec.server_name.as_str());
    push_csv_number(&mut s, rec.ping_avg_ms_hundredths);
    push_csv_number(&mut s, rec.ping_min_ms_hundredths);
    push_csv_number(&mut s, rec.ping_max_ms_hundredths);
    push_csv_number(&mut s, rec.jitter_ms_hundredths);
    push_csv_number(&mut s, rec.dl_mbps_hundredths);
    push_csv_number(&mut s, rec.ul_mbps_hundredths);
    push_char(&mut s, '\n');
    assert(s@ =~= head + csv_row(*rec));
    assert(s@ =~= csv_text(*rec, file_exists));
    s
}

/// A member of a JSON object whose value is text: `key` holds the
/// indentation, the quoted name and the opening quote of the value, which is
/// written escaped.
pub open spec fn text_member(key: Seq<char>, value: Seq<char>) -> Seq<char> {
    key + json_escape(value) + "\",\n"@
}

/// A member of a JSON object whose value is a number with two decimals,
/// followed by a comma.
pub open spec fn number_member(key: Seq<char>, v: nat) -> Seq<char> {
    key + fixed2(v) + ",\n"@
}

/// The JSON object of a record: one member per line, two spaces of
/// indentation, the texts as escaped JSON strings, numbers with two decimals.
pub open spec fn json_object(r: AuditRecord) -> Seq<char> {
    seq!['{', '\n']
    + text_member("  \"timestamp\": \""@, r.timestamp@)
    + text_member("  \"server_sponsor\": \""@, r.server_sponsor@)
    + text_member("  \"server_name\": \""@, r.server_name@)
    + number_member("  \"ping_avg_ms\": "@, r.ping_avg_ms_hundredths as nat)
    + number_member("  \"ping_min_ms\": "@, r.ping_min_ms_hundredths as nat)
    + number_member("  \"ping_max_ms\": "@, r.ping_max_ms_hundredths as nat)
    + number_member("  \"jitter_ms\": "@, r.jitter_ms_hundredths as nat)
    + number_member("  \"dl_mbps\": "@, r.dl_mbps_hundredths as nat)
    + "  \"ul_mbps\": "@ + fixed2(r.ul_mbps_hundredths as nat) + seq!['\n', '}']
}

fn push_text_member(s: &mut String, key: &str, value: &str)
    ensures
        final(s)@ == old(s)@ + text_member(key@, value@),
{
    s.append(key);
    push_json_escaped(s, value);
    s.append("\",\n");
    assert(final(s)@ =~= old(s)@ + text_member(key@, value@));
}

fn push_number_member(s: &mut String, key: &str, v: u64)
    ensures
        final(s)@ == old(s)@ + number_member(key@, v as nat),
{
    s.append(key);
    push_fixed2(s, v);
    s.append(",\n");
    assert(final(s)@ =~= old(s)@ + number_member(key@, v as nat));
}

/// Appends the JSON object of a record.
fn push_json_object(s: &mut String, rec: &AuditRecord)
    ensures
        final(s)@ == old(s)@ + json_object(*rec),
{
    push_char(s, '{');
    push_char(s, '\n');
    let ghost s0 = s@;
    push_text_member(s, "  \"timestamp\": \"", rec.timestamp.as_str());
    push_text_member(s, "  \"server_sponsor\": \"", rec.server_sponsor.as_str());
    push_text_member(s, "  \"server_name\": \"", rec.server_name.as_str());
    let ghost s1 = s@;
    push_number_member(s, "  \"ping_avg_ms\": ", rec.ping_avg_ms_hundredths);
    push_number_member(s, "  \"ping_min_ms\": ", rec.ping_min_ms_hundredths);
    push_number_member(s, "  \"ping_max_ms\": ", rec.ping_max_ms_hundredths);
    push_number_member(s, "  \"jitter_ms\": ", rec.jitter_ms_hundredths);
    push_number_member(s, "  \"dl_mbps\": ", rec.dl_mbps_hundredths);
    let ghost s2 = s@;
    s.append("  \"ul_mbps\": ");
    push_fixed2(s, rec.ul_mbps_hundredths);
    push_char(s, '\n');
    push_char(s, '}');
    assert(s0 =~= old(s)@ + seq!['{', '\n']);
    assert(final(s)@ =~= old(s)@ + json_object(*rec));
}


/// What stays of an existing JSON audit file before a new record is added:
/// the text without surrounding white space, without the closing `]` and a
/// trailing `,`, and again without surrounding white space.
pub open spec fn json_body(existing: Seq<char>) -> Seq<char> {
    trim(trim_end_char(trim_end_char(trim(existing), ']'), ','))
}

/// The JSON object of a record followed by the end of the array.
pub open spec fn json_entry(r: AuditRecord) -> Seq<char> {
    json_object(r) + seq!['\n', ']', '\n']
}

/// The new contents of a JSON audit file that held `existing`: the record is
/// appended to the array as its last element. An empty file starts a new
/// array; an empty array `[` gets the record as first element; otherwise a
/// comma separates it from the elements before.
pub open spec fn json_document(existing: Seq<char>, r: AuditRecord) -> Seq<char> {
    let t = json_body(existing);
    if t.len() == 0 {
        seq!['['] + json_entry(r)
    } else if t == seq!['['] {
        t + seq!['\n'] + json_entry(r)
    } else {
        t + seq![',', '\n'] + json_entry(r)
    }
}

/// The new contents of a JSON audit file that held `existing`.
pub fn json_audit_document(existing: &str, rec: &AuditRecord) -> (r: String)
    ensures
        r@ == json_document(existing@, *rec),
{
    let v = chars_of(existing);
    let n = v.len();
    assert(v@.subrange(0, n as int) =~= existing@);
    let a = skip_white_front(&v, 0, n);
    let b = skip_white_back(&v, a, n);
    let b2 = skip_char_back(&v, a, b, ']');
    let b3 = skip_char_back(&v, a, b2, ',');
    let a4 = skip_white_front(&v, a, b3);
    let b4 = skip_white_back(&v, a4, b3);
    let ghost t = v@.subrange(a4 as int, b4 as int);
    assert(t == json_body(existing@));
    let mut s = String::new();
    if a4 == b4 {
        push_char(&mut s, '[');
    } else if b4 - a4 == 1 && v[a4] == '[' {
        assert(t =~= seq!['[']);
        push_chars(&mut s, &v, a4, b4);
        push_char(&mut s, '\n');
    } else {
        push_chars(&mut s, &v, a4, b4);
        proof {
            if t == seq!['['] {
                assert(t[0] == v@[a4 as int]);
            }
        }
        push_char(&mut s, ',');
        push_char(&mut s, '\n');
    }
    let ghost prefix = s@;
    push_json_object(&mut s, rec);
    push_char(&mut s, '\n');
    push_char(&mut s, ']');
    push_char(&mut s, '\n');
    assert(s@ =~= prefix + json_entry(*rec));
    proof {
        if a4 == b4 {
            assert(prefix =~= seq!['[']);
        } else if t == seq!['['] {
            assert(prefix =~= t + seq!['\n']);
        } else {
            assert(prefix =~= t + seq![',', '\n']);
        }
    }
    s
}

/// The extension of a path: what follows its last `.`, or the whole path
/// where it has none.
pub open spec fn extension(path: Seq<char>) -> Seq<char> {
    path.skip(last_index_of(path, '.') + 1)
}

/// The extension is `csv`, in any mix of upper and lower case.
pub open spec fn is_csv_extension(e: Seq<char>) -> bool {
    &&& e.len() == 3
    &&& (e[0] == 'c' || e[0] == 'C')
    &&& (e[1] == 's' || e[1] == 'S')
    &&& (e[2] == 'v' || e[2] == 'V')
}

/// The extension is what follows the last `.`, whatever dots stand before.
pub proof fn lemma_extension_after_last_dot(p: Seq<char>, e: Seq<char>)
    requires
        !e.contains('.'),
    ensures
        extension(p + seq!['.'] + e) == e,
{
    let s = p + seq!['.'] + e;
    let k = p.len() as int;
    lemma_last_index_of(s, '.');
    let idx = last_index_of(s, '.');
    assert(s[k] == '.');
    assert(s.contains('.'));
    if idx > k {
        assert(e[idx - k - 1] == s[idx]);
        assert(e.contains('.'));
    }
    assert(idx >= k);
    assert(s.skip(k + 1) =~= e);
}

/// A path that ends in `.csv` is a CSV path, whatever dots stand before.
pub proof fn lemma_csv_suffix(p: Seq<char>)
    ensures
        is_csv_extension(extension(p + seq!['.', 'c', 's', 'v'])),
{
    let e = seq!['c', 's', 'v'];
    assert(!e.contains('.')) by {
        if e.contains('.') {
            let i = choose|i: int| 0 <= i < e.len() && e[i] == '.';
            assert(e[i] != '.');
        }
    }
    assert(p + seq!['.', 'c', 's', 'v'] =~= p + seq!['.'] + e);
    lemma_extension_after_last_dot(p, e);
}

/// Whether an output path names a CSV file (by its extension, whatever its
/// case); any other path is written as JSON.
pub fn is_csv_path(path: &str) -> (b: bool)
    ensures
        b == is_csv_extension(extension(path@)),
{
    let v = chars_of(path);
    let n = v.len();
    let mut j = n;
    assert(path@.take(n as int) =~= path@);
    while j > 0 && v[j - 1] != '.'
        invariant
            j <= n == v@.len(),
            v@ == path@,
            last_index_of(path@, '.') == last_index_of(path@.take(j as int), '.'),
        decreases j,
    {
        assert(path@.take(j as int).drop_last() =~= path@.take(j - 1));
        j = j - 1;
    }
    proof {
        if j == 0 {
            assert(path@.take(0) =~= Seq::<char>::empty());
        } else {
            assert(path@.take(j as int).last() == '.');
        }
    }
    let ghost e = extension(path@);
    assert(e =~= v@.subrange(j as int, n as int));
    if n - j != 3 {
        return false;
    }
    let (c0, c1, c2) = (v[j], v[j + 1], v[j + 2]);
    assert(e[0] == c0 && e[1] == c1 && e[2] == c2);
    (c0 == 'c' || c0 == 'C') && (c1 == 's' || c1 == 'S') && (c2 == 'v' || c2 == 'V')
}

/// How a run writes its record to the output file.
pub struct AuditWrite {
    /// The text to write.
    pub contents: String,
    /// Append to the file (CSV) rather than replace its contents (JSON).
    pub append: bool,
}

/// What saving a record to `path` writes: for a CSV path, the record's line
/// (after the header where the file does not exist yet), appended; for any
/// other path, the whole JSON document that `existing` becomes with the
/// record added, replacing the file. `existing` is the file's text, or `[]`
/// where it cannot be read; it is not consulted for a CSV path.
pub fn audit_write(path: &str, file_exists: bool, existing: &str, rec: &AuditRecord) -> (w:
    AuditWrite)
    ensures
        w.append == is_csv_extension(extension(path@)),
        w.append ==> w.contents@ == csv_text(*rec, file_exists),
        !w.append ==> w.contents@ == json_document(existing@, *rec),
{
    if is_csv_path(path) {
        AuditWrite { contents: csv_entry(rec, file_exists), append: true }
    } else {
        AuditWrite { contents: json_audit_document(existing, rec), append: false }
    }
}


/// A JSON audit document ends with the entry of the record just added.
pub proof fn lemma_json_ends_with_entry(existing: Seq<char>, r: AuditRecord)
    ensures
        json_document(existing, r).len() >= json_entry(r).len(),
        json_document(existing, r).skip(json_document(existing, r).len() - json_entry(r).len())
            == json_entry(r),
{
    let d = json_document(existing, r);
    let e = json_entry(r);
    let t = json_body(existing);
    let p = if t.len() == 0 {
        seq!['[']
    } else if t == seq!['['] {
        t + seq!['\n']
    } else {
        t + seq![',', '\n']
    };
    assert(d =~= p + e);
    assert(d.skip(d.len() - e.len()) =~= e);
}

/// Saving a second record to a JSON audit file keeps everything the first
/// save wrote except the closing `\n]\n`, and appends a comma, a newline and
/// the second record as the new last element of the array.
pub proof fn lemma_json_append(existing: Seq<char>, r1: AuditRecord, r2: AuditRecord)
    ensures
        json_document(existing, r1).len() >= 3,
        json_document(json_document(existing, r1), r2) == json_document(existing, r1).take(
            json_document(existing, r1).len() - 3,
        ) + seq![',', '\n'] + json_entry(r2),
{
    let t = json_body(existing);
    lemma_trim_edges(trim_end_char(trim_end_char(trim(existing), ']'), ','));
    let p = if t.len() == 0 {
        seq!['[']
    } else if t == seq!['['] {
        t + seq!['\n']
    } else {
        t + seq![',', '\n']
    };
    let o = json_object(r1);
    let d1 = json_document(existing, r1);
    let body = p + o;
    assert(d1 =~= body + seq!['\n', ']', '\n']);
    assert(o[0] == '{');
    assert(o.last() == '}');
    assert(body[0] == p[0]);
    assert(!is_white_space(body[0]));
    assert(body.last() == '}');
    // the closing `\n]\n` comes off step by step
    let x1 = body + seq!['\n', ']'];
    let x2 = body + seq!['\n'];
    assert(d1.drop_last() =~= x1);
    assert(x1.drop_last() =~= x2);
    assert(x2.drop_last() =~= body);
    assert(x1[0] == body[0] && x2[0] == body[0] && d1[0] == body[0]);
    assert(trim_start(d1) == d1);
    assert(trim_end(x1) == x1);
    assert(trim_end(d1) == x1);
    assert(trim(d1) == x1);
    assert(trim_end_char(x2, ']') == x2);
    assert(trim_end_char(x1, ']') == x2);
    assert(trim_end_char(x2, ',') == x2);
    assert(trim_start(x2) == x2);
    assert(trim_end(body) == body);
    assert(trim_end(x2) == body);
    assert(json_body(d1) == body);
    assert(body.len() >= 2);
    assert(body != seq!['[']);
    assert(d1.take(d1.len() - 3) =~= body);
}


/// Two saves to a CSV file that did not exist write the header once, then
/// one line per record in the order of the saves.
pub proof fn lemma_csv_two_saves(r1: AuditRecord, r2: AuditRecord)
    ensures
        csv_text(r1, false) + csv_text(r2, true) == csv_header() + csv_row(r1) + csv_row(r2),
{
    assert(csv_text(r1, false) + csv_text(r2, true) =~= csv_header() + csv_row(r1) + csv_row(r2));
}


/// Adding a record to a file that holds a JSON array whose last element is
/// an object (`[`, the elements, `]`, with any white space around) keeps the
/// text of the elements as it is, then appends a comma, a newline and the
/// record's object as the new last element before the closing bracket.
pub proof fn lemma_json_append_to_array(
    w1: Seq<char>,
    elements: Seq<char>,
    w2: Seq<char>,
    r: AuditRecord,
)
    requires
        all_white_space(w1),
        all_white_space(w2),
        trim_end(elements).len() > 0,
        trim_end(elements).last() == '}',
    ensures
        json_document(w1 + seq!['['] + elements + seq![']'] + w2, r) == seq!['['] + trim_end(
            elements,
        ) + seq![',', '\n'] + json_entry(r),
{
    let a = seq!['['] + elements;
    let b = a + seq![']'];
    let x = w1 + seq!['['] + elements + seq![']'] + w2;
    assert(x =~= w1 + (b + w2));
    lemma_trim_start_skips_white(w1, b + w2);
    assert((b + w2)[0] == '[');
    assert(trim_start(x) == b + w2);
    lemma_trim_end_skips_white(b, w2);
    assert(b.last() == ']' && !is_white_space(']'));
    assert(trim(x) == b);
    assert(b.drop_last() =~= a);
    // the last character of the elements is the closing brace or white space
    lemma_trim_end_split(elements);
    let te = trim_end(elements);
    let tail = elements.skip(te.len() as int);
    assert(elements.last() == '}' || is_white_space(elements.last())) by {
        if tail.len() > 0 {
            assert(elements.last() == tail[tail.len() - 1]);
        } else {
            assert(elements =~= te);
        }
    }
    assert(a.last() == elements.last());
    assert(a.last() != ']' && a.last() != ',');
    assert(trim_end_char(a, ']') == a);
    assert(trim_end_char(b, ']') == a);
    assert(trim_end_char(a, ',') == a);
    assert(a[0] == '[');
    assert(trim_start(a) == a);
    lemma_trim_end_of_tail(seq!['['], elements);
    assert(trim(a) == seq!['['] + te);
    let t = seq!['['] + te;
    assert(t.len() >= 2);
    assert(t != seq!['[']);
}

/// Adding a record to a file that holds an empty JSON array (`[` and `]`
/// with any white space around and between) gives an array of that record
/// alone.
pub proof fn lemma_json_append_to_empty_array(
    w1: Seq<char>,
    w: Seq<char>,
    w2: Seq<char>,
    r: AuditRecord,
)
    requires
        all_white_space(w1),
        all_white_space(w),
        all_white_space(w2),
    ensures
        json_document(w1 + seq!['['] + w + seq![']'] + w2, r) == seq!['[', '\n'] + json_entry(r),
{
    let a = seq!['['] + w;
    let b = a + seq![']'];
    let x = w1 + seq!['['] + w + seq![']'] + w2;
    assert(x =~= w1 + (b + w2));
    lemma_trim_start_skips_white(w1, b + w2);
    assert((b + w2)[0] == '[');
    lemma_trim_end_skips_white(b, w2);
    assert(b.last() == ']' && !is_white_space(']'));
    assert(trim(x) == b);
    assert(b.drop_last() =~= a);
    assert(a.last() == '[' || is_white_space(a.last())) by {
        if w.len() > 0 {
            assert(a.last() == w[w.len() - 1]);
        }
    }
    assert(a.last() != ']' && a.last() != ',');
    assert(trim_end_char(a, ']') == a);
    assert(trim_end_char(b, ']') == a);
    assert(trim_end_char(a, ',') == a);
    assert(a[0] == '[');
    assert(trim_start(a) == a);
    lemma_trim_end_skips_white(seq!['['], w);
    assert(seq!['['] + w =~= a);
    assert(trim_end(seq!['[']) == seq!['[']);
    assert(trim(a) == seq!['[']);
    assert(json_document(x, r) =~= seq!['[', '\n'] + json_entry(r));
}

/// The numbers of a CSV line never need quotes: they are digits and a point.
pub proof fn lemma_fixed2_needs_no_quotes(v: nat)
    ensures
        !csv_needs_quotes(fixed2(v)),
{
    lemma_decimal_digits(v / 100);
    let f = fixed2(v);
    let d = decimal(v / 100);
    assert forall|i: int| 0 <= i < f.len() implies #[trigger] f[i] != ',' && f[i] != '"' && f[i]
        != '\n' && f[i] != '\r' by {
        if i < d.len() {
            assert(f[i] == d[i]);
        }
    }
}


/// An element of a JSON array as it stands in the text: the white space
/// before it, the element's own text, the white space after it.
pub type ElementText = (Seq<char>, Seq<char>, Seq<char>);

/// The elements of a JSON array written one after the other, separated by
/// commas.
pub open spec fn comma_join(items: Seq<ElementText>) -> Seq<char>
    decreases items.len(),
{
    if items.len() == 0 {
        Seq::empty()
    } else if items.len() == 1 {
        items[0].0 + items[0].1 + items[0].2
    } else {
        comma_join(items.drop_last()) + seq![','] + items.last().0 + items.last().1 + items.last().2
    }
}

/// The text of a JSON array with the given elements.
pub open spec fn array_text(items: Seq<ElementText>) -> Seq<char> {
    seq!['['] + comma_join(items) + seq![']']
}

/// An element that is a JSON object: white space around a text that runs
/// from `{` to `}`.
pub open spec fn is_object_element(e: ElementText) -> bool {
    &&& all_white_space(e.0)
    &&& all_white_space(e.2)
    &&& e.1.len() >= 2
    &&& e.1[0] == '{'
    &&& e.1.last() == '}'
}

/// The elements with the white space after the last one dropped.
pub open spec fn without_trailing_space(items: Seq<ElementText>) -> Seq<ElementText> {
    items.update(items.len() - 1, (items.last().0, items.last().1, Seq::<char>::empty()))
}

proof fn lemma_trim_end_of_objects(items: Seq<ElementText>)
    requires
        items.len() > 0,
        is_object_element(items.last()),
    ensures
        trim_end(comma_join(items)) == comma_join(without_trailing_space(items)),
        trim_end(comma_join(items)).len() > 0,
        trim_end(comma_join(items)).last() == '}',
{
    let n = items.len() as int;
    let last = items.last();
    let core = last.0 + last.1;
    lemma_trim_end_skips_white(core, last.2);
    assert(last.0 + last.1 + last.2 =~= core + last.2);
    assert(core.last() == '}' && !is_white_space('}'));
    assert(trim_end(core) == core);
    let e = comma_join(items);
    let kept = without_trailing_space(items);
    if n == 1 {
        assert(e =~= core + last.2);
        assert(comma_join(kept) =~= core);
    } else {
        let head = comma_join(items.drop_last()) + seq![','];
        assert(e =~= head + (core + last.2));
        lemma_trim_end_of_tail(head, core + last.2);
        assert(trim_end(e) =~= head + core);
        assert(kept.drop_last() =~= items.drop_last());
        assert(comma_join(kept) =~= head + core);
    }
}

/// The object of a record runs from `{` to `}`.
pub proof fn lemma_json_object_braces(r: AuditRecord)
    ensures
        json_object(r).len() >= 2,
        json_object(r)[0] == '{',
        json_object(r).last() == '}',
{
}

/// Saving a record to a file that holds a JSON array of objects (with any
/// white space around it) writes a JSON array whose elements are the old ones,
/// in order and with their texts unchanged (only the white space after the
/// last is dropped), followed by the record's object, then a newline.
pub proof fn lemma_json_array_of_objects_append(
    w1: Seq<char>,
    items: Seq<ElementText>,
    w2: Seq<char>,
    r: AuditRecord,
)
    requires
        all_white_space(w1),
        all_white_space(w2),
        items.len() > 0,
        forall|i: int| 0 <= i < items.len() ==> is_object_element(#[trigger] items[i]),
    ensures
        json_document(w1 + array_text(items) + w2, r) == array_text(
            without_trailing_space(items).push((seq!['\n'], json_object(r), seq!['\n'])),
        ) + seq!['\n'],
        is_object_element((seq!['\n'], json_object(r), seq!['\n'])),
{
    assert(is_object_element(items[items.len() - 1]));
    lemma_trim_end_of_objects(items);
    let e = comma_join(items);
    let o = json_object(r);
    let kept = without_trailing_space(items);
    let newer = kept.push((seq!['\n'], o, seq!['\n']));
    assert(w1 + array_text(items) + w2 =~= w1 + seq!['['] + e + seq![']'] + w2);
    lemma_json_append_to_array(w1, e, w2, r);
    assert(newer.drop_last() =~= kept);
    assert(comma_join(newer) =~= comma_join(kept) + seq![','] + seq!['\n'] + o + seq!['\n']);
    assert(array_text(newer) + seq!['\n'] =~= seq!['['] + trim_end(e) + seq![',', '\n'] + (o
        + seq!['\n', ']', '\n']));
    lemma_json_object_braces(r);
    assert(is_white_space('\n'));
    assert(all_white_space(seq!['\n']));
}

} // verus!
