//! Encoding text fields for the audit files: JSON string escaping and CSV
//! field quoting (RFC 4180), each with the reading that undoes it.

use vstd::prelude::*;
use crate::text::{chars_of, push_char};

verus! {

/// The lower-case hexadecimal digit of `d` (0 to 15).
pub open spec fn hex_digit(d: int) -> char {
    if d < 10 {
        (48 + d) as char
    } else {
        (87 + d) as char
    }
}

/// The value of a hexadecimal digit, or -1 for another character.
pub open spec fn hex_value(c: char) -> int {
    let u = c as int;
    if 48 <= u <= 57 {
        u - 48
    } else if 97 <= u <= 102 {
        u - 87
    } else if 65 <= u <= 70 {
        u - 55
    } else {
        -1
    }
}

/// A control character: below U+0020.
pub open spec fn is_control(c: char) -> bool {
    0 <= c as int && (c as int) < 0x20
}

/// How one character is written inside a JSON string: `"` and `\` with a
/// backslash before them, control characters (below U+0020) as `\u00XX`,
/// any other character as it is.
pub open spec fn json_escape_char(c: char) -> Seq<char> {
    if c == '"' {
        seq!['\\', '"']
    } else if c == '\\' {
        seq!['\\', '\\']
    } else if is_control(c) {
        seq!['\\', 'u', '0', '0', hex_digit((c as int) / 16), hex_digit((c as int) % 16)]
    } else {
        seq![c]
    }
}

/// The contents of the JSON string literal that holds `s` (without the
/// enclosing quotes).
pub open spec fn json_escape(s: Seq<char>) -> Seq<char>
    decreases s.len(),
{
    if s.len() == 0 {
        Seq::empty()
    } else {
        json_escape_char(s[0]) + json_escape(s.drop_first())
    }
}

/// `t` is valid contents of a JSON string literal: no bare `"`, `\` or
/// control character; escapes `\"`, `\\` and `\uXXXX` only.
pub open spec fn json_string_contents(t: Seq<char>) -> bool
    decreases t.len(),
{
    if t.len() == 0 {
        true
    } else if t[0] == '\\' {
        if t.len() >= 2 && (t[1] == '"' || t[1] == '\\') {
            json_string_contents(t.skip(2))
        } else if t.len() >= 6 && t[1] == 'u' && hex_value(t[2]) >= 0 && hex_value(t[3]) >= 0
            && hex_value(t[4]) >= 0 && hex_value(t[5]) >= 0 {
            json_string_contents(t.skip(6))
        } else {
            false
        }
    } else {
        t[0] != '"' && !is_control(t[0]) && json_string_contents(t.drop_first())
    }
}

/// The text that the contents `t` of a JSON string literal stand for, read as
/// a JSON parser reads the escapes `\"`, `\\` and `\uXXXX`.
pub open spec fn json_unescape(t: Seq<char>) -> Seq<char>
    decreases t.len(),
{
    if t.len() == 0 {
        Seq::empty()
    } else if t[0] == '\\' && t.len() >= 2 && (t[1] == '"' || t[1] == '\\') {
        seq![t[1]] + json_unescape(t.skip(2))
    } else if t[0] == '\\' && t.len() >= 6 && t[1] == 'u' {
        seq![
            (hex_value(t[2]) * 4096 + hex_value(t[3]) * 256 + hex_value(t[4]) * 16 + hex_value(
                t[5],
            )) as char,
        ] + json_unescape(t.skip(6))
    } else {
        seq![t[0]] + json_unescape(t.drop_first())
    }
}

proof fn lemma_hex_digit(d: int)
    requires
        0 <= d < 16,
    ensures
        hex_value(hex_digit(d)) == d,
{
    if d < 10 {
        assert(((48 + d) as char) as int == 48 + d);
    } else {
        assert(((87 + d) as char) as int == 87 + d);
    }
}

proof fn lemma_char_code(u: int, c: char)
    requires
        u == c as int,
    ensures
        u as char == c,
{
}

pub proof fn lemma_json_escape_append(a: Seq<char>, b: Seq<char>)
    ensures
        json_escape(a + b) == json_escape(a) + json_escape(b),
    decreases a.len(),
{
    if a.len() == 0 {
        assert(a + b =~= b);
    } else {
        lemma_json_escape_append(a.drop_first(), b);
        assert((a + b).drop_first() =~= a.drop_first() + b);
        assert(json_escape(a + b) =~= json_escape(a) + json_escape(b));
    }
}

/// Escaped text is valid JSON string contents, and reading it gives back the
/// original text.
pub proof fn lemma_json_escape_reads_back(s: Seq<char>)
    ensures
        json_string_contents(json_escape(s)),
        json_unescape(json_escape(s)) == s,
    decreases s.len(),
{
    if s.len() > 0 {
        let c = s[0];
        let rest = s.drop_first();
        lemma_json_escape_reads_back(rest);
        let e = json_escape_char(c);
        let r = json_escape(rest);
        let t = json_escape(s);
        assert(t == e + r);
        if c == '"' || c == '\\' {
            assert(t.skip(2) =~= r);
        } else if is_control(c) {
            let u = c as int;
            assert(t.skip(6) =~= r);
            assert(t[2] == '0' && t[3] == '0');
            assert(e.len() == 6 && t[4] == e[4] && t[5] == e[5] && t[2] == e[2] && t[3] == e[3]);
            lemma_hex_digit(u / 16);
            lemma_hex_digit(u % 16);
            assert(hex_value('0') == 0);
            assert(0 * 4096 + 0 * 256 + (u / 16) * 16 + u % 16 == u) by (nonlinear_arith);
            lemma_char_code(u, c);
        } else {
            assert(t.drop_first() =~= r);
        }
        assert(json_unescape(t) =~= s);
    }
}

/// Appends the escaped form of `v` to `s`.
pub fn push_json_escaped(s: &mut String, v: &str)
    ensures
        final(s)@ == old(s)@ + json_escape(v@),
{
    let chars = chars_of(v);
    let mut i: usize = 0;
    assert(v@.take(0) =~= Seq::<char>::empty());
    while i < chars.len()
        invariant
            i <= chars.len(),
            chars@ == v@,
            s@ == old(s)@ + json_escape(v@.take(i as int)),
        decreases chars.len() - i,
    {
        let c = chars[i];
        push_json_escaped_char(s, c);
        proof {
            lemma_json_escape_append(v@.take(i as int), seq![c]);
            assert(v@.take(i + 1) =~= v@.take(i as int) + seq![c]);
            assert(seq![c].drop_first() =~= Seq::<char>::empty());
            assert(json_escape(Seq::<char>::empty()) =~= Seq::<char>::empty());
            assert(seq![c][0] == c);
            assert(json_escape(seq![c]) =~= json_escape_char(c));
        }
        i = i + 1;
    }
    assert(v@.take(chars.len() as int) =~= v@);
}

fn push_json_escaped_char(s: &mut String, c: char)
    ensures
        final(s)@ == old(s)@ + json_escape_char(c),
{
    assert(0 <= c as int <= 0x10FFFF);
    let u = c as u32;
    assert(u as int == c as int);
    if c == '"' {
        push_char(s, '\\');
        push_char(s, '"');
    } else if c == '\\' {
        push_char(s, '\\');
        push_char(s, '\\');
    } else if u < 0x20 {
        push_char(s, '\\');
        push_char(s, 'u');
        push_char(s, '0');
        push_char(s, '0');
        push_char(s, hex_char(u / 16));
        push_char(s, hex_char(u % 16));
    } else {
        push_char(s, c);
    }
    assert(final(s)@ =~= old(s)@ + json_escape_char(c));
}

fn hex_char(d: u32) -> (c: char)
    requires
        d < 16,
    ensures
        c == hex_digit(d as int),
{
    if d < 10 {
        ((48 + d) as u8) as char
    } else {
        ((87 + d) as u8) as char
    }
}


/// A CSV field must be quoted where it holds a comma, a quote or a line break
/// (RFC 4180).
pub open spec fn csv_needs_quotes(s: Seq<char>) -> bool {
    s.contains(',') || s.contains('"') || s.contains('\n') || s.contains('\r')
}

/// `s` with each `"` doubled.
pub open spec fn csv_double_quotes(s: Seq<char>) -> Seq<char>
    decreases s.len(),
{
    if s.len() == 0 {
        Seq::empty()
    } else {
        (if s[0] == '"' {
            seq!['"', '"']
        } else {
            seq![s[0]]
        }) + csv_double_quotes(s.drop_first())
    }
}

/// How a text is written as a CSV field: as it is, or, where it needs quotes,
/// between quotes with its own quotes doubled.
pub open spec fn csv_field(s: Seq<char>) -> Seq<char> {
    if csv_needs_quotes(s) {
        seq!['"'] + csv_double_quotes(s) + seq!['"']
    } else {
        s
    }
}

/// `t` is valid contents of a quoted CSV field: every `"` in it is doubled.
pub open spec fn csv_quoted_contents(t: Seq<char>) -> bool
    decreases t.len(),
{
    if t.len() == 0 {
        true
    } else if t[0] == '"' {
        t.len() >= 2 && t[1] == '"' && csv_quoted_contents(t.skip(2))
    } else {
        csv_quoted_contents(t.drop_first())
    }
}

/// The text that the contents `t` of a quoted CSV field stand for: each
/// doubled quote read as one.
pub open spec fn csv_unquote(t: Seq<char>) -> Seq<char>
    decreases t.len(),
{
    if t.len() == 0 {
        Seq::empty()
    } else if t[0] == '"' && t.len() >= 2 {
        seq!['"'] + csv_unquote(t.skip(2))
    } else {
        seq![t[0]] + csv_unquote(t.drop_first())
    }
}

/// A CSV field reads back as the text it was written from: unquoted, it
/// holds no comma, quote or line break; quoted, its contents double every
/// quote and read back as the text.
pub proof fn lemma_csv_field_reads_back(s: Seq<char>)
    ensures
        !csv_needs_quotes(s) ==> csv_field(s) == s && !s.contains(',') && !s.contains('"')
            && !s.contains('\n') && !s.contains('\r'),
        csv_needs_quotes(s) ==> csv_field(s) == seq!['"'] + csv_double_quotes(s) + seq!['"'],
        csv_quoted_contents(csv_double_quotes(s)),
        csv_unquote(csv_double_quotes(s)) == s,
    decreases s.len(),
{
    if s.len() > 0 {
        let rest = s.drop_first();
        lemma_csv_field_reads_back(rest);
        let t = csv_double_quotes(s);
        let r = csv_double_quotes(rest);
        if s[0] == '"' {
            assert(t =~= seq!['"', '"'] + r);
            assert(t.skip(2) =~= r);
        } else {
            assert(t =~= seq![s[0]] + r);
            assert(t.drop_first() =~= r);
        }
        assert(csv_unquote(t) =~= s);
    }
}

pub proof fn lemma_csv_double_quotes_append(a: Seq<char>, b: Seq<char>)
    ensures
        csv_double_quotes(a + b) == csv_double_quotes(a) + csv_double_quotes(b),
    decreases a.len(),
{
    if a.len() == 0 {
        assert(a + b =~= b);
    } else {
        lemma_csv_double_quotes_append(a.drop_first(), b);
        assert((a + b).drop_first() =~= a.drop_first() + b);
        assert(csv_double_quotes(a + b) =~= csv_double_quotes(a) + csv_double_quotes(b));
    }
}

fn needs_quotes(v: &Vec<char>) -> (b: bool)
    ensures
        b == csv_needs_quotes(v@),
{
    let mut i: usize = 0;
    while i < v.len()
        invariant
            i <= v.len(),
            forall|k: int| 0 <= k < i ==> v@[k] != ',' && v@[k] != '"' && v@[k] != '\n' && v@[k] != '\r',
        decreases v.len() - i,
    {
        let c = v[i];
        if c == ',' || c == '"' || c == '\n' || c == '\r' {
            assert(csv_needs_quotes(v@)) by {
                if c == ',' {
                    assert(v@.contains(','));
                } else if c == '"' {
                    assert(v@.contains('"'));
                } else if c == '\n' {
                    assert(v@.contains('\n'));
                } else {
                    assert(v@.contains('\r'));
                }
            }
            return true;
        }
        i = i + 1;
    }
    false
}

/// Appends `v` written as a CSV field.
pub fn push_csv_field(s: &mut String, v: &str)
    ensures
        final(s)@ == old(s)@ + csv_field(v@),
{
    let chars = chars_of(v);
    if !needs_quotes(&chars) {
        s.append(v);
        return;
    }
    push_char(s, '"');
    let ghost start = s@;
    let mut i: usize = 0;
    assert(v@.take(0) =~= Seq::<char>::empty());
    while i < chars.len()
        invariant
            i <= chars.len(),
            chars@ == v@,
            s@ == start + csv_double_quotes(v@.take(i as int)),
        decreases chars.len() - i,
    {
        let c = chars[i];
        push_char(s, c);
        if c == '"' {
            push_char(s, '"');
        }
        proof {
            lemma_csv_double_quotes_append(v@.take(i as int), seq![c]);
            assert(v@.take(i + 1) =~= v@.take(i as int) + seq![c]);
            assert(seq![c].drop_first() =~= Seq::<char>::empty());
            assert(csv_double_quotes(Seq::<char>::empty()) =~= Seq::<char>::empty());
            assert(seq![c][0] == c);
            if c == '"' {
                assert(csv_double_quotes(seq![c]) =~= seq!['"', '"']);
            } else {
                assert(csv_double_quotes(seq![c]) =~= seq![c]);
            }
        }
        i = i + 1;
    }
    assert(v@.take(chars.len() as int) =~= v@);
    push_char(s, '"');
    assert(final(s)@ =~= old(s)@ + csv_field(v@));
}

} // verus!
