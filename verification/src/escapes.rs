//! Decoding of `\uXXXX` escape sequences (with UTF-16 surrogate pairs) in
//! tool arguments.

use vstd::prelude::*;

use crate::error::LiteCodeError;
use crate::text::{
    byte_len, char_utf8_width, chars_of, dec, decimal, has_prefix, hex4, hex4_string, lemma_utf8_len_add,
    lemma_utf8_len_at_least, lemma_utf8_len_take, push_char, push_chars, push_str, slice_chars,
    starts_with, utf8_len, utf8_width,
};

verus! {

/// The outcome of one decoding step: a value or an error text.
pub enum Step<T> {
    Value(T),
    Failure(Seq<char>),
}

/// The byte offset of character position `i` of `s`.
pub open spec fn byte_at(s: Seq<char>, i: int) -> nat {
    utf8_len(s.take(i))
}

/// The value of a hexadecimal digit (either case).
pub open spec fn hex_value(c: char) -> Option<nat> {
    let v = c as u32;
    if 48 <= v <= 57 {
        Some((v - 48) as nat)
    } else if 65 <= v <= 70 {
        Some((v - 55) as nat)
    } else if 97 <= v <= 102 {
        Some((v - 87) as nat)
    } else {
        None
    }
}

/// Whether every character of `d` is a hexadecimal digit.
pub open spec fn all_hex(d: Seq<char>) -> bool {
    forall|i: int| 0 <= i < d.len() ==> hex_value(#[trigger] d[i]) is Some
}

/// The number written by the hexadecimal digits `d`.
pub open spec fn hex_number(d: Seq<char>) -> nat
    decreases d.len(),
{
    if d.len() == 0 {
        0
    } else {
        hex_number(d.drop_last()) * 16 + hex_value(d.last()).unwrap_or(0)
    }
}

/// `u16::from_str_radix(h, 16)`: an optional `+`, then at least one
/// hexadecimal digit, with a value that fits in 16 bits.
pub open spec fn parse_u16_hex(h: Seq<char>) -> Option<u16> {
    let digits = if h.len() > 0 && h[0] == '+' {
        h.drop_first()
    } else {
        h
    };
    if digits.len() > 0 && all_hex(digits) && hex_number(digits) <= 0xFFFF {
        Some(hex_number(digits) as u16)
    } else {
        None
    }
}

pub open spec fn msg_truncated(b: nat) -> Seq<char> {
    "truncated escape at byte "@ + dec(b) + "; expected four hexadecimal digits after \\u"@
}

pub open spec fn msg_invalid(hex: Seq<char>, b: nat) -> Seq<char> {
    "invalid escape \\u"@ + hex + " at byte "@ + dec(b)
}

/// The error for an escape whose four bytes after `\u` end inside a
/// character.
pub open spec fn msg_split(b: nat) -> Seq<char> {
    "invalid escape at byte "@ + dec(b) + "; the four bytes after \\u end inside a character"@
}

pub open spec fn msg_low(u: u16, b: nat) -> Seq<char> {
    "unexpected low surrogate \\u"@ + hex4(u) + " at byte "@ + dec(b)
}

pub open spec fn msg_missing_low(u: u16, b: nat) -> Seq<char> {
    "high surrogate \\u"@ + hex4(u) + " at byte "@ + dec(b) + " must be followed by a low surrogate"@
}

pub open spec fn msg_wrong_low(u: u16, v: u16, b: nat) -> Seq<char> {
    msg_missing_low(u, b) + ", found \\u"@ + hex4(v)
}

/// Whether a byte window of exactly `n` bytes ends on a character boundary
/// of `rest`, i.e. some prefix of `rest` is exactly `n` bytes long.
pub open spec fn has_prefix_of_bytes(rest: Seq<char>, n: nat) -> bool {
    exists|k: int| 0 <= k <= rest.len() && utf8_len(#[trigger] rest.take(k)) == n
}

/// The characters that make up the first `n` bytes of `rest`.
pub open spec fn prefix_of_bytes(rest: Seq<char>, n: nat) -> Seq<char> {
    rest.take(choose|k: int| 0 <= k <= rest.len() && utf8_len(#[trigger] rest.take(k)) == n)
}

/// One `\uXXXX` unit starting at character `i` (where `s[i]` is `\` and
/// `s[i + 1]` is `u`): the four bytes after `\u` must hold a 16-bit
/// hexadecimal number.
pub open spec fn escape_unit(s: Seq<char>, i: int) -> Step<u16> {
    let b = byte_at(s, i);
    let rest = s.skip(i + 2);
    if utf8_len(rest) < 4 {
        Step::Failure(msg_truncated(b))
    } else if has_prefix_of_bytes(rest, 4) {
        match parse_u16_hex(prefix_of_bytes(rest, 4)) {
            Some(v) => Step::Value(v),
            None => Step::Failure(msg_invalid(prefix_of_bytes(rest, 4), b)),
        }
    } else {
        Step::Failure(msg_split(b))
    }
}

/// The code point of a surrogate pair.
pub open spec fn combine_surrogates(high: u16, low: u16) -> u32 {
    (0x10000 + (high - 0xD800) * 1024 + (low - 0xDC00)) as u32
}

pub open spec fn is_surrogate(u: u16) -> bool {
    0xD800 <= u <= 0xDFFF
}

pub open spec fn is_low_surrogate(u: u16) -> bool {
    0xDC00 <= u <= 0xDFFF
}

/// The code point written at character `i` (an escape start), with the
/// position after it: a single unit, or a high surrogate followed by a low
/// surrogate.
pub open spec fn escape_code_point(s: Seq<char>, i: int) -> Step<(u32, int)> {
    let b = byte_at(s, i);
    match escape_unit(s, i) {
        Step::Value(first) => {
            if !is_surrogate(first) {
                Step::Value((first as u32, i + 6))
            } else if is_low_surrogate(first) {
                Step::Failure(msg_low(first, b))
            } else if !has_prefix(s.skip(i + 6), seq!['\\', 'u']) {
                Step::Failure(msg_missing_low(first, b))
            } else {
                match escape_unit(s, i + 6) {
                    Step::Value(second) => {
                        if is_low_surrogate(second) {
                            Step::Value((combine_surrogates(first, second), i + 12))
                        } else {
                            Step::Failure(msg_wrong_low(first, second, b))
                        }
                    },
                    Step::Failure(m) => Step::Failure(m),
                }
            }
        },
        Step::Failure(m) => Step::Failure(m),
    }
}

/// Whether an escape starts at character `i`.
pub open spec fn escape_starts(s: Seq<char>, i: int) -> bool {
    0 <= i && i + 1 < s.len() && s[i] == '\\' && s[i + 1] == 'u'
}

/// Decoding of `s` from character `i` on.
pub open spec fn decode_from(s: Seq<char>, i: int) -> Step<Seq<char>>
    decreases s.len() - i,
{
    if i < 0 || i >= s.len() {
        Step::Value(Seq::<char>::empty())
    } else if escape_starts(s, i) {
        match escape_code_point(s, i) {
            Step::Value((cp, j)) => {
                if i < j <= s.len() {
                    match decode_from(s, j) {
                        Step::Value(r) => Step::Value(seq![cp as char] + r),
                        Step::Failure(m) => Step::Failure(m),
                    }
                } else {
                    Step::Failure(msg_split(byte_at(s, i)))
                }
            },
            Step::Failure(m) => Step::Failure(m),
        }
    } else {
        match decode_from(s, i + 1) {
            Step::Value(r) => Step::Value(seq![s[i]] + r),
            Step::Failure(m) => Step::Failure(m),
        }
    }
}

/// Decoding of the whole text: every escape replaced by the character it
/// writes, everything else kept.
pub open spec fn decode_escapes(s: Seq<char>) -> Step<Seq<char>> {
    decode_from(s, 0)
}

/// `p` put in front of a successful result.
pub open spec fn prepend(p: Seq<char>, r: Step<Seq<char>>) -> Step<Seq<char>> {
    match r {
        Step::Value(v) => Step::Value(p + v),
        other => other,
    }
}

// ---------------------------------------------------------------------------
// Lemmas
// ---------------------------------------------------------------------------

proof fn lemma_utf8_len_step(s: Seq<char>, j: int)
    requires
        0 <= j < s.len(),
    ensures
        utf8_len(s.take(j + 1)) == utf8_len(s.take(j)) + utf8_width(s[j]),
{
    assert(s.take(j + 1).drop_last() =~= s.take(j));
}

proof fn lemma_utf8_len_strict(s: Seq<char>, a: int, b: int)
    requires
        0 <= a < b <= s.len(),
    ensures
        utf8_len(s.take(a)) < utf8_len(s.take(b)),
    decreases b - a,
{
    lemma_utf8_len_step(s, b - 1);
    if a < b - 1 {
        lemma_utf8_len_strict(s, a, b - 1);
    }
}

proof fn lemma_prefix_of_bytes_unique(rest: Seq<char>, n: nat, k: int)
    requires
        0 <= k <= rest.len(),
        utf8_len(rest.take(k)) == n,
    ensures
        has_prefix_of_bytes(rest, n),
        prefix_of_bytes(rest, n) == rest.take(k),
{
    assert(has_prefix_of_bytes(rest, n));
    let c = choose|k: int| 0 <= k <= rest.len() && utf8_len(#[trigger] rest.take(k)) == n;
    if c < k {
        lemma_utf8_len_strict(rest, c, k);
    } else if k < c {
        lemma_utf8_len_strict(rest, k, c);
    }
}

proof fn lemma_hex_bound(d: Seq<char>)
    ensures
        d.len() <= 4 ==> hex_number(d) < 65536,
        d.len() <= 3 ==> hex_number(d) < 4096,
        d.len() <= 2 ==> hex_number(d) < 256,
        d.len() <= 1 ==> hex_number(d) < 16,
    decreases d.len(),
{
    if d.len() > 0 {
        lemma_hex_bound(d.drop_last());
    }
}

/// `utf8_len` of a text split in two.
proof fn lemma_utf8_len_split(s: Seq<char>, i: int)
    requires
        0 <= i <= s.len(),
    ensures
        utf8_len(s) == utf8_len(s.take(i)) + utf8_len(s.skip(i)),
{
    lemma_utf8_len_add(s.take(i), s.skip(i));
    assert(s.take(i) + s.skip(i) =~= s);
}

/// A run of ASCII characters takes one byte each.
proof fn lemma_utf8_len_ascii_run(s: Seq<char>, i: int, j: int)
    requires
        0 <= i <= j <= s.len(),
        forall|k: int| i <= k < j ==> (s[k] as u32) < 0x80,
    ensures
        utf8_len(s.take(j)) == utf8_len(s.take(i)) + (j - i),
    decreases j - i,
{
    if i < j {
        lemma_utf8_len_ascii_run(s, i, j - 1);
        lemma_utf8_len_step(s, j - 1);
    }
}

// ---------------------------------------------------------------------------
// Executable decoding
// ---------------------------------------------------------------------------

/// `char::from_u32`.
///
/// Trusted: calls `char::from_u32`, which returns the character with the
/// given code point when it is a Unicode scalar value and `None` otherwise.
#[verifier::external_body]
fn char_from_u32(v: u32) -> (res: Option<char>)
    ensures
        res == if vstd::utf8::is_scalar(v) {
            Some(v as char)
        } else {
            None
        },
{
    char::from_u32(v)
}

/// The value of a hexadecimal digit.
fn hex_value_exec(c: char) -> (res: Option<u32>)
    ensures
        res matches Some(v) ==> hex_value(c) == Some(v as nat) && v < 16,
        res is None ==> hex_value(c) is None,
{
    let v = c as u32;
    if 48 <= v && v <= 57 {
        Some(v - 48)
    } else if 65 <= v && v <= 70 {
        Some(v - 55)
    } else if 97 <= v && v <= 102 {
        Some(v - 87)
    } else {
        None
    }
}

/// `u16::from_str_radix(h, 16)` for texts of at most four characters.
pub fn parse_hex_u16(h: &Vec<char>) -> (res: Option<u16>)
    requires
        h.len() <= 4,
    ensures
        res == parse_u16_hex(h@),
{
    let start: usize = if h.len() > 0 && h[0] == '+' {
        1
    } else {
        0
    };
    let ghost digits = h@.skip(start as int);
    assert(digits =~= if h@.len() > 0 && h@[0] == '+' {
        h@.drop_first()
    } else {
        h@
    });
    if start == h.len() {
        return None;
    }
    let mut value: u32 = 0;
    let mut i = start;
    while i < h.len()
        invariant
            start <= i <= h.len() <= 4,
            digits == h@.skip(start as int),
            digits == (if h@.len() > 0 && h@[0] == '+' {
                h@.drop_first()
            } else {
                h@
            }),
            all_hex(h@.subrange(start as int, i as int)),
            value == hex_number(h@.subrange(start as int, i as int)),
            value < 65536,
        decreases h.len() - i,
    {
        let ghost pre = h@.subrange(start as int, i as int);
        let ghost next = h@.subrange(start as int, i + 1);
        assert(next.drop_last() =~= pre);
        match hex_value_exec(h[i]) {
            None => {
                assert(digits[i - start] == h@[i as int]);
                assert(hex_value(digits[i - start]) is None);
                assert(!all_hex(digits));
                return None;
            },
            Some(d) => {
                proof {
                    lemma_hex_bound(next);
                }
                value = value * 16 + d;
                assert(all_hex(next)) by {
                    assert forall|k: int| 0 <= k < next.len() implies hex_value(
                        #[trigger] next[k],
                    ) is Some by {
                        if k < pre.len() {
                            assert(next[k] == pre[k]);
                        }
                    }
                }
            },
        }
        i = i + 1;
    }
    assert(h@.subrange(start as int, h.len() as int) =~= digits);
    Some(value as u16)
}

fn append_byte_offset(msg: &mut String, b: usize)
    ensures
        final(msg)@ == old(msg)@ + " at byte "@ + dec(b as nat),
{
    push_str(msg, " at byte ");
    let d = decimal(b as u128);
    push_str(msg, d.as_str());
}

/// Parses the `\uXXXX` unit at character `i`, at byte offset `byte`.
fn parse_escape_unit(cs: &Vec<char>, i: usize, byte: usize) -> (res: Result<u16, String>)
    requires
        escape_starts(cs@, i as int),
        byte == byte_at(cs@, i as int),
        utf8_len(cs@) <= usize::MAX,
    ensures
        res matches Ok(v) ==> escape_unit(cs@, i as int) == Step::<u16>::Value(v),
        res matches Ok(v) ==> i + 6 <= cs.len() && forall|k: int|
            i <= k < i + 6 ==> (cs@[k] as u32) < 0x80,
        res matches Err(m) ==> escape_unit(cs@, i as int) == Step::<u16>::Failure(m@),
{
    let ghost s = cs@;
    let ghost rest = s.skip(i + 2);
    let mut k: usize = 0;
    let mut acc: usize = 0;
    proof {
        assert(rest.take(0) =~= Seq::<char>::empty());
        lemma_utf8_len_split(s, i as int + 2);
    }
    while acc < 4 && i + 2 + k < cs.len()
        invariant
            i + 2 + k <= cs.len(),
            rest == s.skip(i + 2),
            s == cs@,
            acc == utf8_len(rest.take(k as int)),
            k == 0 || utf8_len(rest.take(k - 1)) < 4,
            acc <= 7,
        decreases cs.len() - k,
    {
        proof {
            lemma_utf8_len_step(rest, k as int);
        }
        acc = acc + char_utf8_width(cs[i + 2 + k]);
        k = k + 1;
    }
    if acc < 4 {
        assert(rest.take(k as int) =~= rest);
        let mut msg = String::new();
        push_str(&mut msg, "truncated escape at byte ");
        let d = decimal(byte as u128);
        push_str(&mut msg, d.as_str());
        push_str(&mut msg, "; expected four hexadecimal digits after \\u");
        return Err(msg);
    }
    proof {
        lemma_utf8_len_take(rest, k as int);
    }
    if acc > 4 {
        assert(!has_prefix_of_bytes(rest, 4)) by {
            if has_prefix_of_bytes(rest, 4) {
                let c = choose|c: int| 0 <= c <= rest.len() && utf8_len(#[trigger] rest.take(c)) == 4;
                if c < k {
                    if c < k - 1 {
                        lemma_utf8_len_strict(rest, c, k - 1);
                    }
                } else if c > k {
                    lemma_utf8_len_strict(rest, k as int, c);
                }
            }
        }
        let mut msg = String::new();
        push_str(&mut msg, "invalid escape at byte ");
        let d = decimal(byte as u128);
        push_str(&mut msg, d.as_str());
        push_str(&mut msg, "; the four bytes after \\u end inside a character");
        return Err(msg);
    }
    proof {
        lemma_prefix_of_bytes_unique(rest, 4, k as int);
        lemma_utf8_len_at_least(rest.take(k as int));
    }
    let hex = slice_chars(cs, i + 2, i + 2 + k);
    assert(hex@ =~= rest.take(k as int));
    match parse_hex_u16(&hex) {
        Some(v) => {
            proof {
                // The window holds ASCII only, so it is four characters.
                let digits = if hex@.len() > 0 && hex@[0] == '+' {
                    hex@.drop_first()
                } else {
                    hex@
                };
                assert forall|q: int| 0 <= q < hex@.len() implies (hex@[q] as u32) < 0x80 by {
                    if hex@.len() > 0 && hex@[0] == '+' {
                        if q > 0 {
                            assert(hex@[q] == digits[q - 1]);
                            assert(hex_value(digits[q - 1]) is Some);
                        }
                    } else {
                        assert(hex_value(digits[q]) is Some);
                    }
                }
                lemma_utf8_len_ascii_run(hex@, 0, hex@.len() as int);
                assert(hex@.take(hex@.len() as int) =~= hex@);
                assert(hex@.take(0) =~= Seq::<char>::empty());
                assert forall|q: int| i <= q < i + 6 implies (cs@[q] as u32) < 0x80 by {
                    if q >= i + 2 {
                        assert(cs@[q] == hex@[q - i - 2]);
                    }
                }
            }
            Ok(v)
        },
        None => {
            let mut msg = String::new();
            push_str(&mut msg, "invalid escape \\u");
            push_chars(&mut msg, &hex);
            append_byte_offset(&mut msg, byte);
            Err(msg)
        },
    }
}

/// Parses the code point written at character `i`, at byte offset `byte`.
fn parse_escape_code_point(cs: &Vec<char>, i: usize, byte: usize) -> (res: Result<
    (u32, usize),
    String,
>)
    requires
        escape_starts(cs@, i as int),
        byte == byte_at(cs@, i as int),
        utf8_len(cs@) <= usize::MAX,
    ensures
        res matches Ok((cp, j)) ==> escape_code_point(cs@, i as int) == Step::<(u32, int)>::Value(
            (cp, j as int),
        ),
        res matches Ok((cp, j)) ==> i < j <= cs.len() && vstd::utf8::is_scalar(cp)
            && forall|k: int| i <= k < j ==> (cs@[k] as u32) < 0x80,
        res matches Err(m) ==> escape_code_point(cs@, i as int) == Step::<(u32, int)>::Failure(
            m@,
        ),
{
    let first = match parse_escape_unit(cs, i, byte) {
        Err(m) => return Err(m),
        Ok(v) => v,
    };
    if !(0xD800 <= first && first <= 0xDFFF) {
        return Ok((first as u32, i + 6));
    }
    if 0xDC00 <= first {
        let mut msg = String::new();
        push_str(&mut msg, "unexpected low surrogate \\u");
        let h = hex4_string(first);
        push_str(&mut msg, h.as_str());
        append_byte_offset(&mut msg, byte);
        return Err(msg);
    }
    let mut missing = String::new();
    push_str(&mut missing, "high surrogate \\u");
    let h = hex4_string(first);
    push_str(&mut missing, h.as_str());
    append_byte_offset(&mut missing, byte);
    push_str(&mut missing, " must be followed by a low surrogate");
    let marker: Vec<char> = vec!['\\', 'u'];
    let after = slice_chars(cs, i + 6, cs.len());
    assert(after@ =~= cs@.skip(i + 6));
    assert(marker@ =~= seq!['\\', 'u']);
    if !starts_with(&after, &marker) {
        return Err(missing);
    }
    proof {
        lemma_utf8_len_ascii_run(cs@, i as int, i + 6);
        lemma_utf8_len_take(cs@, i + 6);
        assert(after@.take(2) =~= cs@.subrange(i + 6, i + 8));
        assert(cs@[i + 6] == after@.take(2)[0]);
        assert(cs@[i + 7] == after@.take(2)[1]);
    }
    let second = match parse_escape_unit(cs, i + 6, byte + 6) {
        Err(m) => return Err(m),
        Ok(v) => v,
    };
    if !(0xDC00 <= second && second <= 0xDFFF) {
        push_str(&mut missing, ", found \\u");
        let h2 = hex4_string(second);
        push_str(&mut missing, h2.as_str());
        return Err(missing);
    }
    let cp: u32 = 0x10000 + ((first - 0xD800) as u32) * 1024 + ((second - 0xDC00) as u32);
    Ok((cp, i + 12))
}

/// Decodes every `\uXXXX` escape (and surrogate pair) in `input`.
pub fn decode_unicode_escapes(input: &str) -> (res: Result<String, String>)
    ensures
        res matches Ok(out) ==> decode_escapes(input@) == Step::Value(out@),
        res matches Err(m) ==> decode_escapes(input@) == Step::<Seq<char>>::Failure(m@),
{
    let _ = byte_len(input);
    let cs = chars_of(input);
    let mut out = String::new();
    let mut i: usize = 0;
    let mut byte: usize = 0;
    assert(cs@.take(0) =~= Seq::<char>::empty());
    assert(decode_from(cs@, 0) == prepend(out@, decode_from(cs@, 0))) by {
        match decode_from(cs@, 0) {
            Step::Value(v) => {
                assert(Seq::<char>::empty() + v =~= v);
            },
            _ => {},
        }
    }
    while i < cs.len()
        invariant
            i <= cs.len(),
            cs@ == input@,
            utf8_len(cs@) <= usize::MAX,
            byte == byte_at(cs@, i as int),
            decode_from(cs@, 0) == prepend(out@, decode_from(cs@, i as int)),
        decreases cs.len() - i,
    {
        if cs[i] == '\\' && i + 1 < cs.len() && cs[i + 1] == 'u' {
            match parse_escape_code_point(&cs, i, byte) {
                Err(m) => return Err(m),
                Ok((cp, j)) => {
                    let c = match char_from_u32(cp) {
                        Some(c) => c,
                        None => {
                            assert(false);
                            return Err(String::new());
                        },
                    };
                    proof {
                        lemma_utf8_len_ascii_run(cs@, i as int, j as int);
                        lemma_utf8_len_take(cs@, j as int);
                        match decode_from(cs@, j as int) {
                            Step::Value(r) => {
                                assert(out@ + (seq![c] + r) =~= out@.push(c) + r);
                            },
                            _ => {},
                        }
                    }
                    push_char(&mut out, c);
                    byte = byte + (j - i);
                    i = j;
                }
            }
        } else {
            proof {
                lemma_utf8_len_step(cs@, i as int);
                lemma_utf8_len_take(cs@, i + 1);
                match decode_from(cs@, i + 1) {
                    Step::Value(r) => {
                        assert(out@ + (seq![cs@[i as int]] + r) =~= out@.push(cs@[i as int]) + r);
                    },
                    _ => {},
                }
            }
            push_char(&mut out, cs[i]);
            byte = byte + char_utf8_width(cs[i]);
            i = i + 1;
        }
    }
    assert(out@ + Seq::<char>::empty() =~= out@);
    Ok(out)
}

/// The message of a failed decoding of the field `field_name`.
pub open spec fn escape_error_message(field_name: Seq<char>, m: Seq<char>) -> Seq<char> {
    "Invalid Unicode escape in "@ + field_name + ": "@ + m
}

/// `value` unchanged when decoding is off; decoded otherwise, with decoding
/// failures reported as invalid input naming the field.
pub fn maybe_decode_unicode_escapes(enabled: bool, value: &str, field_name: &str) -> (res: Result<
    String,
    LiteCodeError,
>)
    ensures
        !enabled ==> (res matches Ok(out) && out@ == value@),
        enabled ==> (res matches Ok(out) ==> decode_escapes(value@) == Step::Value(out@)),
        enabled ==> (res matches Err(e) ==> exists|m: Seq<char>|
            decode_escapes(value@) == Step::<Seq<char>>::Failure(m) && crate::error::is_invalid_input(
                e,
                escape_error_message(field_name@, m),
            )),
        enabled ==> (res is Err <==> decode_escapes(value@) is Failure),
{
    if !enabled {
        return Ok(value.to_owned());
    }
    match decode_unicode_escapes(value) {
        Ok(out) => Ok(out),
        Err(m) => {
            let mut msg = String::new();
            push_str(&mut msg, "Invalid Unicode escape in ");
            push_str(&mut msg, field_name);
            push_str(&mut msg, ": ");
            push_str(&mut msg, m.as_str());
            let e = LiteCodeError::invalid_input(msg);
            assert(crate::error::is_invalid_input(e, escape_error_message(field_name@, m@)));
            Err(e)
        },
    }
}

} // verus!
