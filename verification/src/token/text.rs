//! Quoted strings and decimal integers as they stand in the compact JSON
//! text of a token payload, written and read back byte by byte.

use vstd::prelude::*;

verus! {

/// The byte `"`, which opens and closes a string.
pub const QUOTE: u8 = 0x22;

/// The byte `\`, which begins an escape.
pub const BACKSLASH: u8 = 0x5c;

/// The lower-case hexadecimal digit for a value below 16.
pub open spec fn hex_digit(v: u8) -> u8 {
    if v < 10 {
        ('0' as u8 + v) as u8
    } else {
        ('a' as u8 + v - 10) as u8
    }
}

/// How one byte of a string is written between the quotes: the quote and
/// the backslash behind a backslash, control bytes by their short escape
/// or as `\u00XX`, every other byte as itself.
pub open spec fn escape_byte(b: u8) -> Seq<u8> {
    if b == QUOTE {
        seq![BACKSLASH, QUOTE]
    } else if b == BACKSLASH {
        seq![BACKSLASH, BACKSLASH]
    } else if b == 0x08 {
        seq![BACKSLASH, 'b' as u8]
    } else if b == 0x09 {
        seq![BACKSLASH, 't' as u8]
    } else if b == 0x0a {
        seq![BACKSLASH, 'n' as u8]
    } else if b == 0x0c {
        seq![BACKSLASH, 'f' as u8]
    } else if b == 0x0d {
        seq![BACKSLASH, 'r' as u8]
    } else if b < 0x20 {
        seq![BACKSLASH, 'u' as u8, '0' as u8, '0' as u8, hex_digit(b / 16), hex_digit(b % 16)]
    } else {
        seq![b]
    }
}

/// The bytes of a string with each byte escaped.
pub open spec fn escape(s: Seq<u8>) -> Seq<u8>
    decreases s.len(),
{
    if s.len() == 0 {
        Seq::empty()
    } else {
        escape_byte(s[0]) + escape(s.skip(1))
    }
}

/// A string as it stands in the text: its escaped bytes between quotes.
pub open spec fn quoted(s: Seq<u8>) -> Seq<u8> {
    seq![QUOTE] + (escape(s) + seq![QUOTE])
}

/// The byte that the escape at the front of `rest` stands for, and the
/// length of that escape; `None` where no byte is written that way.
pub open spec fn read_unit(rest: Seq<u8>) -> Option<(u8, int)> {
    if rest.len() == 0 {
        None
    } else if rest[0] == BACKSLASH {
        if rest.len() < 2 {
            None
        } else if rest[1] == QUOTE {
            Some((QUOTE, 2))
        } else if rest[1] == BACKSLASH {
            Some((BACKSLASH, 2))
        } else if rest[1] == 'b' as u8 {
            Some((0x08u8, 2))
        } else if rest[1] == 't' as u8 {
            Some((0x09u8, 2))
        } else if rest[1] == 'n' as u8 {
            Some((0x0au8, 2))
        } else if rest[1] == 'f' as u8 {
            Some((0x0cu8, 2))
        } else if rest[1] == 'r' as u8 {
            Some((0x0du8, 2))
        } else if rest[1] == 'u' as u8 && rest.len() >= 6 && rest[2] == '0' as u8 && rest[3]
            == '0' as u8 {
            match control_byte(rest[4], rest[5]) {
                Some(b) => Some((b, 6)),
                None => None,
            }
        } else {
            None
        }
    } else if rest[0] < 0x20 || rest[0] == QUOTE {
        None
    } else {
        Some((rest[0], 1))
    }
}

/// The control byte that two hexadecimal digits name, where that byte is
/// written as `\u00XX` and not by a shorter escape.
pub open spec fn control_byte(high: u8, low: u8) -> Option<u8> {
    let h: int = high - 48;
    let l: int = if 48 <= low <= 57 {
        low - 48
    } else {
        low - 87
    };
    let b = h * 16 + l;
    if (high == 48 || high == 49) && (48 <= low <= 57 || 97 <= low <= 102) && b != 0x08 && b
        != 0x09 && b != 0x0a && b != 0x0c && b != 0x0d {
        Some(b as u8)
    } else {
        None
    }
}

/// Reads escaped bytes up to the closing quote: the string, and what
/// follows the quote.
pub open spec fn scan_body(rest: Seq<u8>) -> Option<(Seq<u8>, Seq<u8>)>
    decreases rest.len(),
{
    if rest.len() == 0 {
        None
    } else if rest[0] == QUOTE {
        Some((Seq::empty(), rest.skip(1)))
    } else {
        match read_unit(rest) {
            Some((b, k)) => match scan_body(rest.skip(k)) {
                Some((s, after)) => Some((seq![b] + s, after)),
                None => None,
            },
            None => None,
        }
    }
}

/// Reads a quoted string at the front of `rest`: the string, and what
/// follows it.
pub open spec fn scan_string(rest: Seq<u8>) -> Option<(Seq<u8>, Seq<u8>)> {
    if rest.len() > 0 && rest[0] == QUOTE {
        scan_body(rest.skip(1))
    } else {
        None
    }
}

/// An escape reads back as the byte it was written for.
pub proof fn lemma_read_unit_of_escape(b: u8, tail: Seq<u8>)
    ensures
        read_unit(escape_byte(b) + tail) == Some((b, escape_byte(b).len() as int)),
        b != QUOTE ==> (escape_byte(b) + tail)[0] != QUOTE,
        escape_byte(b).len() >= 1,
{
    let rest = escape_byte(b) + tail;
    assert(forall|i: int| 0 <= i < escape_byte(b).len() ==> rest[i] == escape_byte(b)[i]);
}

/// What reads as one byte is the escape of that byte.
pub proof fn lemma_escape_of_read_unit(rest: Seq<u8>)
    requires
        read_unit(rest) is Some,
    ensures
        1 <= read_unit(rest)->Some_0.1 <= rest.len(),
        rest.take(read_unit(rest)->Some_0.1) == escape_byte(read_unit(rest)->Some_0.0),
{
    let (b, k) = read_unit(rest)->Some_0;
    assert(rest.take(k) =~= escape_byte(b));
}

/// An escaped string followed by a quote reads back as the string.
pub proof fn lemma_scan_body_of_escape(s: Seq<u8>, tail: Seq<u8>)
    ensures
        scan_body(escape(s) + (seq![QUOTE] + tail)) == Some((s, tail)),
    decreases s.len(),
{
    let rest = escape(s) + (seq![QUOTE] + tail);
    if s.len() == 0 {
        assert(rest =~= seq![QUOTE] + tail);
        assert(rest.skip(1) =~= tail);
    } else {
        let unit = escape_byte(s[0]);
        let after = escape(s.skip(1)) + (seq![QUOTE] + tail);
        assert(rest =~= unit + after);
        lemma_read_unit_of_escape(s[0], after);
        if s[0] == QUOTE {
            assert(rest[0] == BACKSLASH);
        }
        assert((unit + after).skip(unit.len() as int) =~= after);
        lemma_scan_body_of_escape(s.skip(1), tail);
        assert(seq![s[0]] + s.skip(1) =~= s);
    }
}

/// What reads as a string body is that string escaped, then a quote.
pub proof fn lemma_escape_of_scan_body(rest: Seq<u8>)
    requires
        scan_body(rest) is Some,
    ensures
        rest == escape(scan_body(rest)->Some_0.0) + (seq![QUOTE] + scan_body(rest)->Some_0.1),
    decreases rest.len(),
{
    let (s, after) = scan_body(rest)->Some_0;
    if rest[0] == QUOTE {
        assert(rest =~= escape(s) + (seq![QUOTE] + after));
    } else {
        let (b, k) = read_unit(rest)->Some_0;
        lemma_escape_of_read_unit(rest);
        lemma_escape_of_scan_body(rest.skip(k));
        let (s1, after1) = scan_body(rest.skip(k))->Some_0;
        assert(s.skip(1) =~= s1);
        assert(rest =~= rest.take(k) + rest.skip(k));
        assert(rest =~= escape(s) + (seq![QUOTE] + after));
    }
}

/// A quoted string reads back as the string, whatever follows it.
pub proof fn lemma_scan_string_of_quoted(s: Seq<u8>, tail: Seq<u8>)
    ensures
        scan_string(quoted(s) + tail) == Some((s, tail)),
{
    let rest = quoted(s) + tail;
    assert(rest.skip(1) =~= escape(s) + (seq![QUOTE] + tail));
    lemma_scan_body_of_escape(s, tail);
}

/// What reads as a string is that string quoted.
pub proof fn lemma_quoted_of_scan_string(rest: Seq<u8>)
    requires
        scan_string(rest) is Some,
    ensures
        rest == quoted(scan_string(rest)->Some_0.0) + scan_string(rest)->Some_0.1,
{
    lemma_escape_of_scan_body(rest.skip(1));
    let (s, after) = scan_string(rest)->Some_0;
    assert(rest =~= seq![QUOTE] + rest.skip(1));
    assert(rest =~= quoted(s) + after);
}

/// The string `front + s` where `(s, after)` was read, with the same rest.
pub open spec fn attach(front: Seq<u8>, read: Option<(Seq<u8>, Seq<u8>)>) -> Option<
    (Seq<u8>, Seq<u8>),
> {
    match read {
        Some((s, after)) => Some((front + s, after)),
        None => None,
    }
}

fn hex_digit_of(v: u8) -> (c: u8)
    requires
        v < 16,
    ensures
        c == hex_digit(v),
{
    if v < 10 {
        '0' as u8 + v
    } else {
        'a' as u8 + (v - 10)
    }
}

/// Appends the escape of `b` to `out`.
fn push_escaped(out: &mut Vec<u8>, b: u8)
    ensures
        final(out)@ == old(out)@ + escape_byte(b),
{
    let ghost before = out@;
    if b == QUOTE || b == BACKSLASH {
        out.push(BACKSLASH);
        out.push(b);
    } else if b == 0x08 {
        out.push(BACKSLASH);
        out.push('b' as u8);
    } else if b == 0x09 {
        out.push(BACKSLASH);
        out.push('t' as u8);
    } else if b == 0x0a {
        out.push(BACKSLASH);
        out.push('n' as u8);
    } else if b == 0x0c {
        out.push(BACKSLASH);
        out.push('f' as u8);
    } else if b == 0x0d {
        out.push(BACKSLASH);
        out.push('r' as u8);
    } else if b < 0x20 {
        out.push(BACKSLASH);
        out.push('u' as u8);
        out.push('0' as u8);
        out.push('0' as u8);
        out.push(hex_digit_of(b / 16));
        out.push(hex_digit_of(b % 16));
    } else {
        out.push(b);
    }
    assert(out@ =~= before + escape_byte(b));
}

/// Appends `s` to `out` as a quoted string.
pub fn push_quoted(out: &mut Vec<u8>, s: &[u8])
    ensures
        final(out)@ == old(out)@ + quoted(s@),
{
    let ghost before = out@;
    out.push(QUOTE);
    let mut i: usize = 0;
    assert(s@.skip(0) == s@);
    while i < s.len()
        invariant
            i <= s@.len(),
            before + seq![QUOTE] + escape(s@) == out@ + escape(s@.skip(i as int)),
        decreases s@.len() - i,
    {
        let ghost written = out@;
        push_escaped(out, s[i]);
        proof {
            let rest = s@.skip(i as int);
            assert(rest.skip(1) == s@.skip(i + 1));
            assert(written + (escape_byte(rest[0]) + escape(rest.skip(1))) == (written
                + escape_byte(rest[0])) + escape(rest.skip(1)));
        }
        i = i + 1;
    }
    out.push(QUOTE);
    assert(out@ =~= before + quoted(s@));
}

/// Reads the escape that starts at `at`.
fn read_unit_at(text: &[u8], at: usize) -> (unit: Option<(u8, usize)>)
    requires
        at <= text@.len(),
    ensures
        match unit {
            Some((b, k)) => read_unit(text@.skip(at as int)) == Some((b, k as int)) && at + k
                <= text@.len(),
            None => read_unit(text@.skip(at as int)) is None,
        },
{
    let n: usize = text.len();
    let ghost rest = text@.skip(at as int);
    if at >= n {
        return None;
    }
    let c: u8 = text[at];
    assert(rest[0] == c);
    if c == BACKSLASH {
        if n - at < 2 {
            return None;
        }
        let e: u8 = text[at + 1];
        assert(rest[1] == e);
        if e == QUOTE || e == BACKSLASH {
            Some((e, 2))
        } else if e == 'b' as u8 {
            Some((0x08, 2))
        } else if e == 't' as u8 {
            Some((0x09, 2))
        } else if e == 'n' as u8 {
            Some((0x0a, 2))
        } else if e == 'f' as u8 {
            Some((0x0c, 2))
        } else if e == 'r' as u8 {
            Some((0x0d, 2))
        } else if e == 'u' as u8 && n - at >= 6 {
            assert(rest[2] == text@[at + 2] && rest[3] == text@[at + 3]);
            assert(rest[4] == text@[at + 4] && rest[5] == text@[at + 5]);
            if text[at + 2] != '0' as u8 || text[at + 3] != '0' as u8 {
                return None;
            }
            let high: u8 = text[at + 4];
            let low: u8 = text[at + 5];
            if high != 48 && high != 49 {
                return None;
            }
            let l: u8 = if 48 <= low && low <= 57 {
                low - 48
            } else if 97 <= low && low <= 102 {
                low - 87
            } else {
                return None;
            };
            let b: u8 = (high - 48) * 16 + l;
            if b == 0x08 || b == 0x09 || b == 0x0a || b == 0x0c || b == 0x0d {
                None
            } else {
                Some((b, 6))
            }
        } else {
            None
        }
    } else if c < 0x20 || c == QUOTE {
        None
    } else {
        Some((c, 1))
    }
}

/// Reads the quoted string that starts at `start`: its bytes, and the
/// place behind its closing quote.
pub fn read_string(text: &[u8], start: usize) -> (found: Option<(Vec<u8>, usize)>)
    requires
        start <= text@.len(),
    ensures
        match found {
            Some((s, next)) => start <= next <= text@.len() && scan_string(
                text@.skip(start as int),
            ) == Some((s@, text@.skip(next as int))),
            None => scan_string(text@.skip(start as int)) is None,
        },
{
    let n: usize = text.len();
    if start >= n || text[start] != QUOTE {
        return None;
    }
    let ghost body = text@.skip(start + 1);
    assert(text@.skip(start as int).skip(1) == body);
    assert(scan_string(text@.skip(start as int)) == scan_body(body));
    let mut out: Vec<u8> = Vec::new();
    let mut i: usize = start + 1;
    assert(attach(out@, scan_body(body)) == scan_body(body)) by {
        if scan_body(body) is Some {
            assert(Seq::<u8>::empty() + scan_body(body)->Some_0.0 =~= scan_body(body)->Some_0.0);
        }
    }
    while i < n && text[i] != QUOTE
        invariant
            n == text@.len(),
            start < i <= n,
            scan_string(text@.skip(start as int)) == scan_body(body),
            scan_body(body) == attach(out@, scan_body(text@.skip(i as int))),
        decreases n - i,
    {
        let ghost rest = text@.skip(i as int);
        assert(rest[0] == text@[i as int]);
        match read_unit_at(text, i) {
            Some((b, k)) => {
                proof {
                    lemma_escape_of_read_unit(rest);
                    assert(rest.skip(k as int) == text@.skip(i + k));
                    if scan_body(rest.skip(k as int)) is Some {
                        let (s1, after) = scan_body(rest.skip(k as int))->Some_0;
                        assert(out@ + (seq![b] + s1) == out@.push(b) + s1);
                    }
                }
                out.push(b);
                i = i + k;
            },
            None => {
                return None;
            },
        }
    }
    if i >= n {
        assert(text@.skip(i as int).len() == 0);
        return None;
    }
    proof {
        let rest = text@.skip(i as int);
        assert(rest[0] == QUOTE);
        assert(rest.skip(1) == text@.skip(i + 1));
        assert(out@ + Seq::<u8>::empty() == out@);
    }
    Some((out, i + 1))
}

/// The byte `-`, which begins a negative number.
pub const MINUS: u8 = 0x2d;

/// Whether a byte is one of the digits `0` to `9`.
pub open spec fn is_digit(b: u8) -> bool {
    '0' as u8 <= b <= '9' as u8
}

/// The decimal digits of `n`, most significant first, without leading
/// zeros.
pub open spec fn digits(n: nat) -> Seq<u8>
    decreases n,
{
    if n < 10 {
        seq![(48 + n) as u8]
    } else {
        digits(n / 10).push((48 + n % 10) as u8)
    }
}

/// An integer as it stands in the text.
pub open spec fn decimal(n: int) -> Seq<u8> {
    if n < 0 {
        seq![MINUS] + digits((-n) as nat)
    } else {
        digits(n as nat)
    }
}

/// How many digits stand at the front of `rest`.
pub open spec fn digit_run(rest: Seq<u8>) -> nat
    decreases rest.len(),
{
    if rest.len() > 0 && is_digit(rest[0]) {
        1 + digit_run(rest.skip(1))
    } else {
        0
    }
}

/// The number that a string of digits writes.
pub open spec fn digits_value(d: Seq<u8>) -> int
    decreases d.len(),
{
    if d.len() == 0 {
        0
    } else {
        digits_value(d.drop_last()) * 10 + (d.last() - 48)
    }
}

/// Whether a digit string is the one way to write its number: not empty,
/// and with a leading zero only as the single digit `0`.
pub open spec fn canonical_digits(d: Seq<u8>) -> bool {
    &&& d.len() >= 1
    &&& forall|i: int| 0 <= i < d.len() ==> is_digit(#[trigger] d[i])
    &&& (d.len() > 1 ==> d[0] != 48)
}

/// Reads an integer at the front of `rest`: an optional minus sign and
/// all the digits that follow. `None` unless they are the one way to
/// write a number that fits in 64 bits.
pub open spec fn scan_int(rest: Seq<u8>) -> Option<(int, Seq<u8>)> {
    let negative = rest.len() > 0 && rest[0] == MINUS;
    let body = if negative {
        rest.skip(1)
    } else {
        rest
    };
    let k = digit_run(body) as int;
    let magnitude = digits_value(body.take(k));
    let n = if negative {
        -magnitude
    } else {
        magnitude
    };
    if k == 0 || (k > 1 && body[0] == 48) || (negative && magnitude == 0) || n < i64::MIN || n
        > i64::MAX {
        None
    } else {
        Some((n, body.skip(k)))
    }
}

/// Whether nothing or something other than a digit stands at the front.
pub open spec fn ends_number(tail: Seq<u8>) -> bool {
    tail.len() == 0 || !is_digit(tail[0])
}

pub proof fn lemma_digits_shape(n: nat)
    ensures
        canonical_digits(digits(n)),
        digits(n)[0] == 48 <==> n == 0,
        digits_value(digits(n)) == n,
    decreases n,
{
    let d = digits(n);
    if n < 10 {
        assert(d.drop_last() =~= Seq::empty());
        assert(digits_value(d.drop_last()) == 0);
    } else {
        lemma_digits_shape(n / 10);
        assert(d.drop_last() =~= digits(n / 10));
        assert(d[0] == digits(n / 10)[0]);
    }
}

pub proof fn lemma_digits_of_value(d: Seq<u8>)
    requires
        canonical_digits(d),
    ensures
        digits_value(d) >= 0,
        digits(digits_value(d) as nat) == d,
    decreases d.len(),
{
    let front = d.drop_last();
    let c = d.last();
    if front.len() == 0 {
        assert(digits_value(front) == 0);
        assert(digits(digits_value(d) as nat) =~= d);
    } else {
        assert(front[0] == d[0]);
        assert forall|i: int| 0 <= i < front.len() implies is_digit(#[trigger] front[i]) by {
            assert(front[i] == d[i]);
        }
        lemma_digits_of_value(front);
        let v = digits_value(front) as nat;
        lemma_digits_shape(v);
        assert(v >= 1);
        let w = (v * 10 + (c - 48)) as nat;
        assert(w / 10 == v && w % 10 == c - 48);
        assert(digits(w) =~= d);
    }
}

pub proof fn lemma_digit_run_bounds(rest: Seq<u8>)
    ensures
        digit_run(rest) <= rest.len(),
        forall|i: int| 0 <= i < digit_run(rest) ==> is_digit(#[trigger] rest[i]),
        ends_number(rest.skip(digit_run(rest) as int)),
    decreases rest.len(),
{
    if rest.len() > 0 && is_digit(rest[0]) {
        let after = rest.skip(1);
        lemma_digit_run_bounds(after);
        assert forall|i: int| 0 <= i < digit_run(rest) implies is_digit(#[trigger] rest[i]) by {
            if i > 0 {
                assert(rest[i] == after[i - 1]);
            }
        }
        assert(rest.skip(digit_run(rest) as int) =~= after.skip(digit_run(after) as int));
    } else {
        assert(rest.skip(0) =~= rest);
    }
}

pub proof fn lemma_digit_run_exact(d: Seq<u8>, tail: Seq<u8>)
    requires
        forall|i: int| 0 <= i < d.len() ==> is_digit(#[trigger] d[i]),
        ends_number(tail),
    ensures
        digit_run(d + tail) == d.len(),
    decreases d.len(),
{
    let rest = d + tail;
    if d.len() == 0 {
        assert(rest =~= tail);
    } else {
        assert(rest[0] == d[0]);
        assert(rest.skip(1) =~= d.skip(1) + tail);
        assert forall|i: int| 0 <= i < d.skip(1).len() implies is_digit(
            #[trigger] d.skip(1)[i],
        ) by {
            assert(d.skip(1)[i] == d[i + 1]);
        }
        lemma_digit_run_exact(d.skip(1), tail);
    }
}

/// A written integer reads back as itself when no digit follows it.
pub proof fn lemma_scan_int_of_decimal(n: int, tail: Seq<u8>)
    requires
        i64::MIN <= n <= i64::MAX,
        ends_number(tail),
    ensures
        scan_int(decimal(n) + tail) == Some((n, tail)),
{
    let rest = decimal(n) + tail;
    if n < 0 {
        let m = (-n) as nat;
        lemma_digits_shape(m);
        let body = rest.skip(1);
        assert(rest[0] == MINUS);
        assert(body =~= digits(m) + tail);
        lemma_digit_run_exact(digits(m), tail);
        assert(body.take(digits(m).len() as int) =~= digits(m));
        assert(body.skip(digits(m).len() as int) =~= tail);
        assert(body[0] == digits(m)[0]);
    } else {
        let m = n as nat;
        lemma_digits_shape(m);
        assert(rest[0] == digits(m)[0]);
        lemma_digit_run_exact(digits(m), tail);
        assert(rest.take(digits(m).len() as int) =~= digits(m));
        assert(rest.skip(digits(m).len() as int) =~= tail);
    }
}

/// What reads as an integer is that integer as written, and no digit
/// follows it.
pub proof fn lemma_decimal_of_scan_int(rest: Seq<u8>)
    requires
        scan_int(rest) is Some,
    ensures
        rest == decimal(scan_int(rest)->Some_0.0) + scan_int(rest)->Some_0.1,
        ends_number(scan_int(rest)->Some_0.1),
        i64::MIN <= scan_int(rest)->Some_0.0 <= i64::MAX,
{
    let (n, after) = scan_int(rest)->Some_0;
    let negative = rest.len() > 0 && rest[0] == MINUS;
    let body = if negative {
        rest.skip(1)
    } else {
        rest
    };
    let k = digit_run(body) as int;
    lemma_digit_run_bounds(body);
    let d = body.take(k);
    assert forall|i: int| 0 <= i < d.len() implies is_digit(#[trigger] d[i]) by {
        assert(d[i] == body[i]);
    }
    assert(d[0] == body[0]);
    lemma_digits_of_value(d);
    assert(body =~= d + body.skip(k));
    if negative {
        assert(rest =~= seq![MINUS] + body);
        assert(rest =~= decimal(n) + after);
    } else {
        assert(rest =~= decimal(n) + after);
    }
}

proof fn lemma_value_monotone(d: Seq<u8>, j: int, k: int)
    requires
        0 <= j <= k <= d.len(),
        forall|i: int| 0 <= i < k ==> is_digit(#[trigger] d[i]),
    ensures
        0 <= digits_value(d.take(j)) <= digits_value(d.take(k)),
    decreases k,
{
    if k == 0 {
        assert(d.take(0).len() == 0);
    } else {
        assert(d.take(k).drop_last() =~= d.take(k - 1));
        assert(d.take(k).last() == d[k - 1]);
        if j < k {
            lemma_value_monotone(d, j, k - 1);
        } else {
            lemma_value_monotone(d, k - 1, k - 1);
        }
    }
}

/// Appends the digits of `n` to `out`.
fn push_digits(out: &mut Vec<u8>, n: u64)
    ensures
        final(out)@ == old(out)@ + digits(n as nat),
    decreases n,
{
    let ghost before = out@;
    if n >= 10 {
        push_digits(out, n / 10);
    }
    out.push(48 + (n % 10) as u8);
    assert(out@ =~= before + digits(n as nat));
}

/// Appends `n` to `out` in decimal.
pub fn push_decimal(out: &mut Vec<u8>, n: i64)
    ensures
        final(out)@ == old(out)@ + decimal(n as int),
{
    let ghost before = out@;
    if n < 0 {
        out.push(MINUS);
        let m: u64 = if n == i64::MIN {
            9223372036854775808
        } else {
            (-n) as u64
        };
        push_digits(out, m);
        assert(out@ =~= before + decimal(n as int));
    } else {
        push_digits(out, n as u64);
    }
}

/// Reads the integer that starts at `start`: its value, and the place
/// behind its last digit.
pub fn read_int(text: &[u8], start: usize) -> (found: Option<(i64, usize)>)
    requires
        start <= text@.len(),
    ensures
        match found {
            Some((n, next)) => start <= next <= text@.len() && scan_int(text@.skip(start as int))
                == Some((n as int, text@.skip(next as int))),
            None => scan_int(text@.skip(start as int)) is None,
        },
{
    let n: usize = text.len();
    let ghost rest = text@.skip(start as int);
    let negative: bool = start < n && text[start] == MINUS;
    let first: usize = if negative {
        start + 1
    } else {
        start
    };
    let ghost body = text@.skip(first as int);
    proof {
        if start < n {
            assert(rest[0] == text@[start as int]);
        }
        if negative {
            assert(rest.skip(1) == body);
        }
        assert(body.take(0).len() == 0);
        assert(text@.skip(first as int) == body);
    }
    let mut i: usize = first;
    let mut acc: u64 = 0;
    while i < n && 48 <= text[i] && text[i] <= 57
        invariant
            n == text@.len(),
            first <= i <= n,
            body == text@.skip(first as int),
            rest == text@.skip(start as int),
            negative == (rest.len() > 0 && rest[0] == MINUS),
            body == if negative {
                rest.skip(1)
            } else {
                rest
            },
            digit_run(body) == (i - first) + digit_run(text@.skip(i as int)),
            acc == digits_value(body.take(i - first)),
            acc <= 9223372036854775808,
        decreases n - i,
    {
        let d: u8 = text[i] - 48;
        proof {
            let here = text@.skip(i as int);
            assert(here[0] == text@[i as int]);
            assert(here.skip(1) == text@.skip(i + 1));
            assert(body.take(i + 1 - first).drop_last() =~= body.take(i - first));
            assert(body.take(i + 1 - first).last() == text@[i as int]);
            assert(digits_value(body.take(i + 1 - first)) == acc * 10 + d);
        }
        if acc > 922337203685477580 || acc * 10 + d as u64 > 9223372036854775808 {
            proof {
                lemma_digit_run_bounds(body);
                lemma_value_monotone(body, i + 1 - first, digit_run(body) as int);
            }
            return None;
        }
        acc = acc * 10 + d as u64;
        i = i + 1;
    }
    proof {
        let here = text@.skip(i as int);
        if i < n {
            assert(here[0] == text@[i as int]);
        }
        assert(digit_run(here) == 0);
        assert(body.skip(i - first) == here);
        if i > first {
            assert(body[0] == text@[first as int]);
        }
    }
    if i == first {
        return None;
    }
    if i - first > 1 && text[first] == 48 {
        return None;
    }
    if negative {
        if acc == 0 {
            None
        } else if acc == 9223372036854775808 {
            Some((i64::MIN, i))
        } else {
            Some((-(acc as i64), i))
        }
    } else {
        if acc > 9223372036854775807 {
            None
        } else {
            Some((acc as i64, i))
        }
    }
}

/// Ten to the power of `k`.
pub open spec fn pow10(k: nat) -> nat
    decreases k,
{
    if k == 0 {
        1
    } else {
        10 * pow10((k - 1) as nat)
    }
}

/// A number below ten to the `k` is written with `k` digits at most.
pub proof fn lemma_digits_len(n: nat, k: nat)
    requires
        k >= 1,
        n < pow10(k),
    ensures
        digits(n).len() <= k,
    decreases k,
{
    reveal_with_fuel(pow10, 2);
    if n >= 10 {
        lemma_digits_len(n / 10, (k - 1) as nat);
    }
}

/// An integer of 64 bits is written with 20 bytes at most.
pub proof fn lemma_decimal_len(n: int)
    requires
        i64::MIN <= n <= i64::MAX,
    ensures
        decimal(n).len() <= 20,
{
    assert(pow10(19) == 10_000_000_000_000_000_000) by {
        reveal_with_fuel(pow10, 20);
    }
    if n < 0 {
        lemma_digits_len((-n) as nat, 19);
    } else {
        lemma_digits_len(n as nat, 19);
    }
}

/// A quoted string is at most six times as long as the string, and two
/// quotes more.
pub proof fn lemma_quoted_len(s: Seq<u8>)
    ensures
        escape(s).len() <= 6 * s.len(),
        quoted(s).len() <= 6 * s.len() + 2,
    decreases s.len(),
{
    if s.len() > 0 {
        lemma_quoted_len(s.skip(1));
    }
}

} // verus!
