//! Byte-level text handling shared by the parsers: number parsing in a
//! radix, splitting on a separator, whitespace tokens, lines, and decimal
//! and hexadecimal rendering.
//!
//! Parsers work on the UTF-8 bytes of their input. Every separator they
//! look for is ASCII, and no byte of a multi-byte UTF-8 character is ASCII,
//! so splitting the bytes splits the characters.

use vstd::prelude::*;
use vstd::string::StringSliceAdditionalSpecFns;
use vstd::utf8::{
    encode_utf8, encode_utf8_decode_utf8, encode_utf8_valid_utf8, is_ascii_chars,
    is_ascii_chars_encode_utf8, is_char_boundary_iff_not_is_continuation_byte,
};

verus! {

/// Appends a character; std documents `String::push` as "Appends the given
/// char to the end of this String".
pub assume_specification[ String::push ](s: &mut String, ch: char)
    ensures
        final(s)@ == old(s)@.push(ch),
;

/// Value of the digit `b` in `radix`, as `char::to_digit` reads it:
/// `0-9`, then `a-z` or `A-Z` for ten and up.
pub open spec fn digit_value(b: u8, radix: nat) -> Option<nat> {
    let v: int = if 48 <= b <= 57 {
        b - 48
    } else if 97 <= b <= 122 {
        b - 97 + 10
    } else if 65 <= b <= 90 {
        b - 65 + 10
    } else {
        99
    };
    if v < radix {
        Some(v as nat)
    } else {
        None
    }
}

/// Every byte of `s` is a digit in `radix`.
pub open spec fn all_digits(s: Seq<u8>, radix: nat) -> bool {
    forall|i: int| 0 <= i < s.len() ==> (#[trigger] digit_value(s[i], radix)) is Some
}

/// The number written by the digits `s` in `radix`.
pub open spec fn digits_value(s: Seq<u8>, radix: nat) -> nat
    decreases s.len(),
{
    if s.len() == 0 {
        0
    } else {
        digits_value(s.drop_last(), radix) * radix + match digit_value(s.last(), radix) {
            Some(d) => d,
            None => 0,
        }
    }
}

/// Unsigned `from_str_radix`: an optional `+` followed by at least one digit
/// of `radix`, whose value must not exceed `max`.
pub open spec fn parse_radix_spec(s: Seq<u8>, radix: nat, max: nat) -> Option<nat> {
    let body = if s.len() > 1 && s[0] == 43 {
        s.drop_first()
    } else {
        s
    };
    if body.len() == 0 || !all_digits(body, radix) || digits_value(body, radix) > max {
        None
    } else {
        Some(digits_value(body, radix))
    }
}

proof fn lemma_digits_value_take_step(s: Seq<u8>, i: int, radix: nat)
    requires
        0 <= i < s.len(),
    ensures
        digits_value(s.take(i + 1), radix) == digits_value(s.take(i), radix) * radix + match digit_value(
            s[i],
            radix,
        ) {
            Some(d) => d,
            None => 0,
        },
{
    assert(s.take(i + 1).drop_last() =~= s.take(i));
}

/// Appending digits never lowers the value.
proof fn lemma_digits_value_prefix_le(s: Seq<u8>, i: int, radix: nat)
    requires
        0 <= i <= s.len(),
        radix >= 1,
    ensures
        digits_value(s.take(i), radix) <= digits_value(s, radix),
    decreases s.len() - i,
{
    if i < s.len() {
        lemma_digits_value_take_step(s, i, radix);
        let a = digits_value(s.take(i), radix);
        assert(a <= a * radix) by (nonlinear_arith)
            requires
                radix >= 1,
        ;
        lemma_digits_value_prefix_le(s, i + 1, radix);
    } else {
        assert(s.take(i) =~= s);
    }
}

/// Parses an unsigned number in `radix` the way `from_str_radix` does,
/// rejecting values above `max`.
pub fn parse_radix(s: &[u8], radix: u32, max: u64) -> (r: Option<u64>)
    requires
        2 <= radix <= 36,
    ensures
        match parse_radix_spec(s@, radix as nat, max as nat) {
            Some(v) => r == Some(v as u64),
            None => r is None,
        },
{
    let n = s.len();
    let start: usize = if n > 1 && s[0] == 43 {
        1
    } else {
        0
    };
    let ghost body = s@.subrange(start as int, n as int);
    assert(body =~= (if s@.len() > 1 && s@[0] == 43 {
        s@.drop_first()
    } else {
        s@
    }));
    if start == n {
        return None;
    }
    let mut acc: u128 = 0;
    let mut i: usize = start;
    while i < n
        invariant
            start <= i <= n,
            n == s@.len(),
            body == s@.subrange(start as int, n as int),
            body == (if s@.len() > 1 && s@[0] == 43 {
                s@.drop_first()
            } else {
                s@
            }),
            acc <= max,
            acc == digits_value(body.take(i - start), radix as nat),
            all_digits(body.take(i - start), radix as nat),
            2 <= radix <= 36,
        decreases n - i,
    {
        let b = s[i];
        let d: u32 = if 48 <= b && b <= 57 {
            (b - 48) as u32
        } else if 97 <= b && b <= 122 {
            (b - 97 + 10) as u32
        } else if 65 <= b && b <= 90 {
            (b - 65 + 10) as u32
        } else {
            99
        };
        assert(body[i - start] == b);
        if d >= radix {
            assert(!all_digits(body, radix as nat)) by {
                assert(digit_value(body[i - start], radix as nat) is None);
            }
            return None;
        }
        proof {
            lemma_digits_value_take_step(body, i - start, radix as nat);
            assert(acc * radix <= 0xffff_ffff_ffff_ffff * 36) by (nonlinear_arith)
                requires
                    acc <= 0xffff_ffff_ffff_ffff,
                    radix <= 36,
            ;
        }
        acc = acc * radix as u128 + d as u128;
        assert(all_digits(body.take(i - start + 1), radix as nat)) by {
            assert forall|j: int| 0 <= j < body.take(i - start + 1).len() implies (#[trigger] digit_value(
                body.take(i - start + 1)[j],
                radix as nat,
            )) is Some by {
                if j < i - start {
                    assert(body.take(i - start + 1)[j] == body.take(i - start)[j]);
                }
            }
        }
        if acc > max as u128 {
            proof {
                if all_digits(body, radix as nat) {
                    lemma_digits_value_prefix_le(body, i - start + 1, radix as nat);
                }
            }
            return None;
        }
        i = i + 1;
    }
    assert(body.take(n - start) =~= body);
    Some(acc as u64)
}

/// Index of the first occurrence of `sep` in `s` at or after `from`, or the
/// length of `s` when there is none.
pub open spec fn find_from(s: Seq<u8>, from: int, sep: u8) -> int
    decreases s.len() - from,
{
    if from >= s.len() {
        s.len() as int
    } else if s[from] == sep {
        from
    } else {
        find_from(s, from + 1, sep)
    }
}

pub proof fn lemma_find_from(s: Seq<u8>, from: int, sep: u8)
    requires
        0 <= from,
    ensures
        from <= find_from(s, from, sep) <= s.len() || (from > s.len() && find_from(s, from, sep)
            == s.len()),
        find_from(s, from, sep) < s.len() ==> s[find_from(s, from, sep)] == sep,
        forall|j: int| from <= j < find_from(s, from, sep) ==> s[j] != sep,
    decreases s.len() - from,
{
    if from < s.len() && s[from] != sep {
        lemma_find_from(s, from + 1, sep);
    }
}

/// Finds the next `sep` at or after `from`.
pub fn find_byte(s: &[u8], from: usize, sep: u8) -> (r: usize)
    requires
        from <= s@.len(),
    ensures
        r == find_from(s@, from as int, sep),
{
    let mut i = from;
    while i < s.len()
        invariant
            from <= i <= s@.len(),
            find_from(s@, from as int, sep) == find_from(s@, i as int, sep),
        decreases s@.len() - i,
    {
        if s[i] == sep {
            return i;
        }
        i = i + 1;
    }
    i
}

/// The pieces of `s` from `from` on, split at every `sep`, as `str::split`
/// yields them: `n` separators give `n + 1` pieces, empty ones included.
pub open spec fn split_from(s: Seq<u8>, from: int, sep: u8) -> Seq<Seq<u8>>
    decreases s.len() + 1 - from,
{
    if from > s.len() || from < 0 {
        seq![]
    } else {
        let e = find_from(s, from, sep);
        if e >= s.len() || e < from {
            seq![s.subrange(from, s.len() as int)]
        } else {
            seq![s.subrange(from, e)] + split_from(s, e + 1, sep)
        }
    }
}

/// `s` split at every `sep`.
pub open spec fn split_on(s: Seq<u8>, sep: u8) -> Seq<Seq<u8>> {
    split_from(s, 0, sep)
}

/// Whether `b` is ASCII whitespace as `u8::is_ascii_whitespace` defines it:
/// space, tab, line feed, form feed or carriage return.
pub open spec fn is_ascii_ws(b: u8) -> bool {
    b == 32 || b == 9 || b == 10 || b == 12 || b == 13
}

/// End of the whitespace-free run that starts at `from`.
pub open spec fn token_end(s: Seq<u8>, from: int) -> int
    decreases s.len() - from,
{
    if from >= s.len() {
        s.len() as int
    } else if is_ascii_ws(s[from]) {
        from
    } else {
        token_end(s, from + 1)
    }
}

pub proof fn lemma_token_end(s: Seq<u8>, from: int)
    requires
        0 <= from <= s.len(),
    ensures
        from <= token_end(s, from) <= s.len(),
        token_end(s, from) < s.len() ==> is_ascii_ws(s[token_end(s, from)]),
    decreases s.len() - from,
{
    if from < s.len() && !is_ascii_ws(s[from]) {
        lemma_token_end(s, from + 1);
    }
}

/// The whitespace-separated tokens of `s` from `from` on, as
/// `split_ascii_whitespace` yields them (no empty tokens).
pub open spec fn tokens_from(s: Seq<u8>, from: int) -> Seq<Seq<u8>>
    decreases s.len() - from,
{
    if from >= s.len() || from < 0 {
        seq![]
    } else if is_ascii_ws(s[from]) {
        tokens_from(s, from + 1)
    } else {
        let e = token_end(s, from + 1);
        if e <= from || e > s.len() {
            seq![]
        } else {
            seq![s.subrange(from, e)] + tokens_from(s, e)
        }
    }
}

/// The whitespace-separated tokens of `s`.
pub open spec fn tokens(s: Seq<u8>) -> Seq<Seq<u8>> {
    tokens_from(s, 0)
}

/// The next token at or after `from`: its bounds, or `None` when only
/// whitespace remains. After a token ending at `e`, the remaining tokens
/// are those from `e`.
pub fn next_token(s: &[u8], from: usize) -> (r: Option<(usize, usize)>)
    requires
        from <= s@.len(),
    ensures
        match r {
            None => tokens_from(s@, from as int).len() == 0,
            Some((a, e)) => {
                &&& from <= a < e <= s@.len()
                &&& tokens_from(s@, from as int).len() > 0
                &&& tokens_from(s@, from as int)[0] == s@.subrange(a as int, e as int)
                &&& tokens_from(s@, from as int).drop_first() == tokens_from(s@, e as int)
            },
        },
{
    let n = s.len();
    let mut a = from;
    while a < n && (s[a] == 32 || s[a] == 9 || s[a] == 10 || s[a] == 12 || s[a] == 13)
        invariant
            from <= a <= n,
            n == s@.len(),
            tokens_from(s@, from as int) == tokens_from(s@, a as int),
        decreases n - a,
    {
        a = a + 1;
    }
    if a >= n {
        return None;
    }
    let mut e = a + 1;
    while e < n && !(s[e] == 32 || s[e] == 9 || s[e] == 10 || s[e] == 12 || s[e] == 13)
        invariant
            a < e <= n,
            n == s@.len(),
            token_end(s@, a + 1) == token_end(s@, e as int),
        decreases n - e,
    {
        e = e + 1;
    }
    proof {
        let t = tokens_from(s@, a as int);
        assert(token_end(s@, a + 1) == e);
        assert(t == seq![s@.subrange(a as int, e as int)] + tokens_from(s@, e as int));
        assert(t.drop_first() =~= tokens_from(s@, e as int));
    }
    Some((a, e))
}

/// The lines of `s` from `from` on, as `str::lines` yields them: split at
/// `\n`, a `\r` just before the `\n` removed, and no empty line after a
/// final `\n`.
pub open spec fn lines_from(s: Seq<u8>, from: int) -> Seq<Seq<u8>>
    decreases s.len() - from,
{
    if from >= s.len() || from < 0 {
        seq![]
    } else {
        let e = find_from(s, from, 10);
        if e >= s.len() || e < from {
            seq![s.subrange(from, s.len() as int)]
        } else {
            let line = s.subrange(from, e);
            let stripped = if line.len() > 0 && line.last() == 13 {
                line.drop_last()
            } else {
                line
            };
            seq![stripped] + lines_from(s, e + 1)
        }
    }
}

/// The lines of `s`.
pub open spec fn lines(s: Seq<u8>) -> Seq<Seq<u8>> {
    lines_from(s, 0)
}

/// The next line at or after `from`: the bounds of its text (without the
/// line ending) and the position where the following line starts.
pub fn next_line(s: &[u8], from: usize) -> (r: Option<(usize, usize, usize)>)
    requires
        from <= s@.len(),
    ensures
        match r {
            None => lines_from(s@, from as int).len() == 0,
            Some((a, e, next)) => {
                &&& from == a <= e <= next <= s@.len()
                &&& next > from
                &&& lines_from(s@, from as int).len() > 0
                &&& lines_from(s@, from as int)[0] == s@.subrange(a as int, e as int)
                &&& lines_from(s@, from as int).drop_first() == lines_from(s@, next as int)
            },
        },
{
    let n = s.len();
    if from >= n {
        return None;
    }
    let nl = find_byte(s, from, 10);
    proof {
        lemma_find_from(s@, from as int, 10);
    }
    if nl >= n {
        assert(lines_from(s@, from as int).drop_first() =~= lines_from(s@, n as int));
        return Some((from, n, n));
    }
    let e = if nl > from && s[nl - 1] == 13 {
        nl - 1
    } else {
        nl
    };
    proof {
        let t = lines_from(s@, from as int);
        let line = s@.subrange(from as int, nl as int);
        if nl > from && s@[nl - 1] == 13 {
            assert(line.drop_last() =~= s@.subrange(from as int, e as int));
        }
        assert(t.drop_first() =~= lines_from(s@, nl + 1));
    }
    Some((from, e, nl + 1))
}

/// Whether `s` begins with `p`.
pub open spec fn starts_with(s: Seq<u8>, p: Seq<u8>) -> bool {
    p.len() <= s.len() && s.take(p.len() as int) == p
}

/// `s` with every leading repetition of `0x` removed, as
/// `trim_start_matches("0x")` does.
pub open spec fn trim_0x(s: Seq<u8>) -> Seq<u8>
    decreases s.len(),
{
    if s.len() >= 2 && s[0] == 48 && s[1] == 120 {
        trim_0x(s.skip(2))
    } else {
        s
    }
}

/// Offset at which `trim_0x` leaves `s` when started at `from`.
pub open spec fn trim_0x_from(s: Seq<u8>, from: int) -> int
    decreases s.len() - from,
{
    if 0 <= from && from + 2 <= s.len() && s[from] == 48 && s[from + 1] == 120 {
        trim_0x_from(s, from + 2)
    } else {
        from
    }
}

proof fn lemma_trim_0x_from(s: Seq<u8>, from: int)
    requires
        0 <= from <= s.len(),
    ensures
        from <= trim_0x_from(s, from) <= s.len(),
        trim_0x(s.skip(from)) == s.skip(trim_0x_from(s, from)),
    decreases s.len() - from,
{
    let t = s.skip(from);
    if from + 2 <= s.len() && s[from] == 48 && s[from + 1] == 120 {
        lemma_trim_0x_from(s, from + 2);
        assert(t.skip(2) =~= s.skip(from + 2));
    }
}

/// Removes every leading `0x` from `s`.
pub fn trim_0x_prefix(s: &[u8]) -> (r: &[u8])
    ensures
        r@ == trim_0x(s@),
{
    let mut i: usize = 0;
    while i < s.len() && s.len() - i >= 2 && s[i] == 48 && s[i + 1] == 120
        invariant
            i <= s@.len(),
            trim_0x_from(s@, 0) == trim_0x_from(s@, i as int),
        decreases s@.len() - i,
    {
        i = i + 2;
    }
    proof {
        lemma_trim_0x_from(s@, 0);
        assert(s@.skip(0) =~= s@);
    }
    &s[i..s.len()]
}

/// Lower-case hexadecimal digit for `v < 16`.
pub open spec fn hex_digit_char(v: nat) -> char {
    if v < 10 {
        (48 + v) as char
    } else {
        (87 + v) as char
    }
}

/// `v` in lower-case hexadecimal, zero-padded to `width` digits (wider
/// values keep all their digits).
pub open spec fn hex_padded(v: nat, width: nat) -> Seq<char>
    decreases v + width,
{
    if width <= 1 {
        if v < 16 {
            seq![hex_digit_char(v)]
        } else {
            hex_padded(v / 16, 1) + seq![hex_digit_char(v % 16)]
        }
    } else {
        hex_padded(v / 16, (width - 1) as nat) + seq![hex_digit_char(v % 16)]
    }
}

/// Decimal digits of `v`, no leading zeros.
pub open spec fn decimal(v: nat) -> Seq<char>
    decreases v,
{
    if v < 10 {
        seq![(48 + v) as char]
    } else {
        decimal(v / 10) + seq![(48 + v % 10) as char]
    }
}

/// The bytes of the ASCII characters of `t`.
pub open spec fn ascii_bytes(t: Seq<char>) -> Seq<u8> {
    t.map_values(|c: char| c as u8)
}

/// The decimal rendering of `v` is ASCII digits: one to three of them below
/// 1000, with no leading zero, spelling `v`.
pub proof fn lemma_decimal_digits(v: nat)
    ensures
        is_ascii_chars(decimal(v)),
        decimal(v).len() > 0,
        all_digits(ascii_bytes(decimal(v)), 10),
        digits_value(ascii_bytes(decimal(v)), 10) == v,
        v < 10 ==> decimal(v).len() == 1,
        v >= 10 ==> decimal(v).len() > 1,
        v < 100 ==> decimal(v).len() <= 2,
        v < 1000 ==> decimal(v).len() <= 3,
        decimal(v).len() > 1 ==> ascii_bytes(decimal(v))[0] != 48,
    decreases v,
{
    let d = decimal(v);
    let b = ascii_bytes(d);
    if v < 10 {
        assert(b[0] == (48 + v) as u8);
        assert(b.drop_last() =~= Seq::<u8>::empty());
        assert(digits_value(b.drop_last(), 10) == 0);
        assert(digit_value(b.last(), 10) == Some(v));
    } else {
        lemma_decimal_digits(v / 10);
        let h = decimal(v / 10);
        let hb = ascii_bytes(h);
        assert(d == h + seq![(48 + v % 10) as char]);
        assert(b.drop_last() =~= hb);
        assert(b.last() == (48 + v % 10) as u8);
        assert(digit_value(b.last(), 10) == Some(v % 10));
        assert(digits_value(b, 10) == digits_value(b.drop_last(), 10) * 10 + v % 10);
        assert(v == (v / 10) * 10 + v % 10);
        assert forall|i: int| 0 <= i < d.len() implies '\0' <= #[trigger] d[i] <= '\u{7f}' by {
            if i < h.len() {
                assert(d[i] == h[i]);
            }
        }
        assert forall|i: int| 0 <= i < b.len() implies (#[trigger] digit_value(b[i], 10)) is Some by {
            if i < hb.len() {
                assert(b[i] == hb[i]);
            }
        }
        assert(b[0] == hb[0]);
        if v / 10 < 10 {
            assert(hb[0] == (48 + v / 10) as u8);
        }
    }
}

/// The UTF-8 bytes of ASCII text are its characters' codes.
pub proof fn lemma_ascii_encode(t: Seq<char>)
    requires
        is_ascii_chars(t),
    ensures
        encode_utf8(t) == ascii_bytes(t),
{
    is_ascii_chars_encode_utf8(t);
    assert(encode_utf8(t) =~= ascii_bytes(t));
}

/// ASCII text joined to ASCII text is ASCII, and its bytes are joined.
pub proof fn lemma_ascii_join(a: Seq<char>, b: Seq<char>)
    requires
        is_ascii_chars(a),
        is_ascii_chars(b),
    ensures
        is_ascii_chars(a + b),
        ascii_bytes(a + b) == ascii_bytes(a) + ascii_bytes(b),
{
    assert forall|i: int| 0 <= i < (a + b).len() implies '\0' <= #[trigger] (a + b)[i] <= '\u{7f}' by {
        if i < a.len() {
            assert((a + b)[i] == a[i]);
        } else {
            assert((a + b)[i] == b[i - a.len()]);
        }
    }
    assert(ascii_bytes(a + b) =~= ascii_bytes(a) + ascii_bytes(b));
}

/// Appends the lower-case hexadecimal digit of `v`.
pub fn push_hex_digit(s: &mut String, v: u8)
    requires
        v < 16,
    ensures
        final(s)@ == old(s)@.push(hex_digit_char(v as nat)),
{
    let c: u8 = if v < 10 {
        48 + v
    } else {
        87 + v
    };
    s.push(c as char);
}

/// Appends a byte as exactly two lower-case hexadecimal digits (`{:02x}`).
pub fn push_hex_byte(s: &mut String, b: u8)
    ensures
        final(s)@ == old(s)@ + hex_padded(b as nat, 2),
{
    push_hex_digit(s, b / 16);
    push_hex_digit(s, b % 16);
    assert(hex_padded(b as nat, 2) =~= seq![hex_digit_char((b / 16) as nat), hex_digit_char(
        (b % 16) as nat,
    )]) by {
        reveal_with_fuel(hex_padded, 3);
    }
}

/// Appends `v` as exactly four lower-case hexadecimal digits.
pub fn push_hex_u16(s: &mut String, v: u16)
    ensures
        final(s)@ == old(s)@ + hex_padded(v as nat, 4),
{
    let a = (v / 4096) as u8;
    let b = ((v / 256) % 16) as u8;
    let c = ((v / 16) % 16) as u8;
    let d = (v % 16) as u8;
    push_hex_digit(s, a);
    push_hex_digit(s, b);
    push_hex_digit(s, c);
    push_hex_digit(s, d);
    assert(hex_padded(v as nat, 4) =~= seq![
        hex_digit_char(a as nat),
        hex_digit_char(b as nat),
        hex_digit_char(c as nat),
        hex_digit_char(d as nat),
    ]) by {
        reveal_with_fuel(hex_padded, 5);
        assert(v as nat / 16 / 16 / 16 == v / 4096);
        assert((v as nat / 16 / 16) % 16 == (v / 256) % 16);
    }
}

/// Appends the decimal digits of `v`.
pub fn push_decimal(s: &mut String, v: u64)
    ensures
        final(s)@ == old(s)@ + decimal(v as nat),
    decreases v,
{
    if v >= 10 {
        push_decimal(s, v / 10);
    }
    let d: u8 = (v % 10) as u8;
    s.push((48 + d) as char);
}


/// Whether two byte strings are equal.
pub fn bytes_eq(a: &[u8], b: &[u8]) -> (r: bool)
    ensures
        r == (a@ == b@),
{
    if a.len() != b.len() {
        return false;
    }
    let mut i: usize = 0;
    while i < a.len()
        invariant
            a@.len() == b@.len(),
            i <= a@.len(),
            forall|j: int| 0 <= j < i ==> a@[j] == b@[j],
        decreases a@.len() - i,
    {
        if a[i] != b[i] {
            return false;
        }
        i = i + 1;
    }
    assert(a@ =~= b@);
    true
}

/// Equal UTF-8 encodings come from equal texts.
pub proof fn lemma_encode_utf8_injective(a: Seq<char>, b: Seq<char>)
    requires
        encode_utf8(a) == encode_utf8(b),
    ensures
        a == b,
{
    encode_utf8_decode_utf8(a);
    encode_utf8_decode_utf8(b);
}

/// Whether two texts are equal.
pub fn str_eq(a: &str, b: &str) -> (r: bool)
    ensures
        r == (a@ == b@),
{
    let r = bytes_eq(a.as_bytes(), b.as_bytes());
    proof {
        if r {
            lemma_encode_utf8_injective(a@, b@);
        }
    }
    r
}

/// Whether `a` sorts before `b` byte by byte, a proper prefix first — the
/// order `str` and `String` compare by.
pub open spec fn lex_lt(a: Seq<u8>, b: Seq<u8>) -> bool
    decreases a.len(),
{
    if b.len() == 0 {
        false
    } else if a.len() == 0 {
        true
    } else if a[0] != b[0] {
        a[0] < b[0]
    } else {
        lex_lt(a.drop_first(), b.drop_first())
    }
}

/// `lex_lt` of the suffixes from `i`.
pub open spec fn lex_lt_from(a: Seq<u8>, b: Seq<u8>, i: int) -> bool
    decreases a.len() - i,
{
    if i >= b.len() || i < 0 {
        false
    } else if i >= a.len() {
        true
    } else if a[i] != b[i] {
        a[i] < b[i]
    } else {
        lex_lt_from(a, b, i + 1)
    }
}

proof fn lemma_lex_lt_from(a: Seq<u8>, b: Seq<u8>, i: int)
    requires
        0 <= i <= a.len(),
        i <= b.len(),
    ensures
        lex_lt_from(a, b, i) == lex_lt(a.skip(i), b.skip(i)),
    decreases a.len() - i,
{
    if i < a.len() && i < b.len() && a[i] == b[i] {
        lemma_lex_lt_from(a, b, i + 1);
        assert(a.skip(i).drop_first() =~= a.skip(i + 1));
        assert(b.skip(i).drop_first() =~= b.skip(i + 1));
    }
}

/// Byte-wise lexicographic comparison.
pub fn bytes_lt(a: &[u8], b: &[u8]) -> (r: bool)
    ensures
        r == lex_lt(a@, b@),
{
    let mut i: usize = 0;
    proof {
        lemma_lex_lt_from(a@, b@, 0);
        assert(a@.skip(0) =~= a@);
        assert(b@.skip(0) =~= b@);
    }
    loop
        invariant
            i <= a@.len(),
            i <= b@.len(),
            lex_lt(a@, b@) == lex_lt_from(a@, b@, i as int),
        decreases a@.len() - i,
    {
        if i >= b.len() {
            return false;
        }
        if i >= a.len() {
            return true;
        }
        if a[i] != b[i] {
            return a[i] < b[i];
        }
        i = i + 1;
    }
}

/// Index of the last `sep` in `s`, if any.
pub open spec fn rfind(s: Seq<u8>, sep: u8) -> Option<int>
    decreases s.len(),
{
    if s.len() == 0 {
        None
    } else if s.last() == sep {
        Some(s.len() - 1)
    } else {
        rfind(s.drop_last(), sep)
    }
}

pub proof fn lemma_rfind(s: Seq<u8>, sep: u8)
    ensures
        rfind(s, sep) matches Some(i) ==> 0 <= i < s.len() && s[i] == sep && forall|j: int|
            i < j < s.len() ==> s[j] != sep,
        rfind(s, sep) is None ==> forall|j: int| 0 <= j < s.len() ==> s[j] != sep,
    decreases s.len(),
{
    if s.len() > 0 && s.last() != sep {
        lemma_rfind(s.drop_last(), sep);
        assert forall|j: int| 0 <= j < s.len() - 1 implies s[j] == s.drop_last()[j] by {}
    }
}

/// Finds the last `sep`.
pub fn rfind_byte(s: &[u8], sep: u8) -> (r: Option<usize>)
    ensures
        match r {
            Some(i) => rfind(s@, sep) == Some(i as int) && i < s@.len() && s@[i as int] == sep,
            None => rfind(s@, sep) is None,
        },
{
    proof {
        lemma_rfind(s@, sep);
    }
    let mut k = s.len();
    assert(s@.take(k as int) =~= s@);
    while k > 0
        invariant
            k <= s@.len(),
            rfind(s@, sep) == rfind(s@.take(k as int), sep),
        decreases k,
    {
        assert(s@.take(k as int).drop_last() =~= s@.take(k - 1));
        if s[k - 1] == sep {
            return Some(k - 1);
        }
        k = k - 1;
    }
    None
}

/// The first occurrence of `sep` in `s`, if any.
pub open spec fn find_first(s: Seq<u8>, sep: u8) -> Option<int> {
    if find_from(s, 0, sep) < s.len() {
        Some(find_from(s, 0, sep))
    } else {
        None
    }
}

/// Splits a text at a byte position holding an ASCII byte; both parts are
/// text again.
pub fn split_str_at<'a>(s: &'a str, i: usize) -> (r: (&'a str, &'a str))
    requires
        i < s.spec_bytes().len(),
        s.spec_bytes()[i as int] < 128,
    ensures
        r.0.spec_bytes() == s.spec_bytes().subrange(0, i as int),
        r.1.spec_bytes() == s.spec_bytes().subrange(i as int, s.spec_bytes().len() as int),
{
    proof {
        encode_utf8_valid_utf8(s@);
        is_char_boundary_iff_not_is_continuation_byte(s.spec_bytes(), i as int);
    }
    s.split_at(i)
}

/// Whether `f` occurs as a contiguous run inside `r`.
pub open spec fn contains_run(r: Seq<u8>, f: Seq<u8>) -> bool {
    exists|i: int| 0 <= i && i + f.len() <= r.len() && #[trigger] r.subrange(i, i + f.len()) == f
}

/// `f` occurs inside `r` exactly when `r` is some bytes, then `f`, then
/// some more bytes.
pub proof fn lemma_contains_run_split(r: Seq<u8>, f: Seq<u8>)
    ensures
        contains_run(r, f) <==> exists|a: Seq<u8>, b: Seq<u8>| r == #[trigger] (a + f + b),
{
    if contains_run(r, f) {
        let i = choose|i: int| 0 <= i && i + f.len() <= r.len() && #[trigger] r.subrange(i, i + f.len()) == f;
        let a = r.take(i);
        let b = r.skip(i + f.len());
        assert(r =~= a + f + b);
    }
    if exists|a: Seq<u8>, b: Seq<u8>| r == #[trigger] (a + f + b) {
        let (a, b) = choose|a: Seq<u8>, b: Seq<u8>| r == #[trigger] (a + f + b);
        let i = a.len() as int;
        assert(r.subrange(i, i + f.len()) =~= f);
    }
}

/// Whether `f` occurs inside `r`.
pub fn contains_bytes(r: &[u8], f: &[u8]) -> (b: bool)
    ensures
        b == contains_run(r@, f@),
{
    let n = r.len();
    let fl = f.len();
    if fl > n {
        return false;
    }
    if fl == 0 {
        assert(r@.subrange(0, 0 + f@.len() as int) =~= f@);
        return true;
    }
    let count = n - fl + 1;
    let mut i: usize = 0;
    while i < count
        invariant
            n == r@.len(),
            fl == f@.len(),
            0 < fl <= n,
            count == n - fl + 1,
            i <= count,
            forall|j: int| 0 <= j < i ==> #[trigger] r@.subrange(j, j + fl) != f@,
        decreases count - i,
    {
        let mut k: usize = 0;
        let mut same = true;
        while k < fl
            invariant
                n == r@.len(),
                fl == f@.len(),
                k <= fl,
                i < count,
                count == n - fl + 1,
                same == (forall|t: int| 0 <= t < k ==> r@[i + t] == f@[t]),
            decreases fl - k,
        {
            if r[i + k] != f[k] {
                same = false;
            }
            k = k + 1;
        }
        if same {
            assert(r@.subrange(i as int, i + fl) =~= f@);
            return true;
        }
        assert(r@.subrange(i as int, i + fl) != f@) by {
            let t = choose|t: int| 0 <= t < fl && r@[i + t] != f@[t];
            assert(r@.subrange(i as int, i + fl)[t] == r@[i + t]);
        }
        i = i + 1;
    }
    assert forall|j: int| 0 <= j && j + f@.len() <= r@.len() implies #[trigger] r@.subrange(
        j,
        j + f@.len(),
    ) != f@ by {
        assert(j < count);
    }
    false
}

} // verus!
