//! The URL-safe base64 alphabet without padding, as used for the three
//! segments of a token.

use vstd::prelude::*;

verus! {

/// The character that stands for a six-bit value: `A` to `Z`, `a` to `z`,
/// `0` to `9`, then `-` and `_`.
pub open spec fn symbol(v: u8) -> u8 {
    if v < 26 {
        ('A' as u8 + v) as u8
    } else if v < 52 {
        ('a' as u8 + v - 26) as u8
    } else if v < 62 {
        ('0' as u8 + v - 52) as u8
    } else if v == 62 {
        '-' as u8
    } else {
        '_' as u8
    }
}

/// The six-bit value that a character stands for, if it is in the alphabet.
pub open spec fn symbol_value(c: u8) -> Option<u8> {
    if 'A' as u8 <= c <= 'Z' as u8 {
        Some((c - 'A' as u8) as u8)
    } else if 'a' as u8 <= c <= 'z' as u8 {
        Some((c - 'a' as u8 + 26) as u8)
    } else if '0' as u8 <= c <= '9' as u8 {
        Some((c - '0' as u8 + 52) as u8)
    } else if c == '-' as u8 {
        Some(62u8)
    } else if c == '_' as u8 {
        Some(63u8)
    } else {
        None
    }
}

/// Whether a byte is one of the 64 characters of the alphabet.
pub open spec fn is_symbol(c: u8) -> bool {
    symbol_value(c) is Some
}

/// The first of the four six-bit values of a group of three bytes: the
/// upper six bits of the first byte.
pub open spec fn sextet0(b0: u8) -> u8 {
    b0 >> 2
}

/// The second: the lower two bits of the first byte, then the upper four
/// of the second.
pub open spec fn sextet1(b0: u8, b1: u8) -> u8 {
    ((b0 & 0x03) << 4) | (b1 >> 4)
}

/// The third: the lower four bits of the second byte, then the upper two
/// of the third.
pub open spec fn sextet2(b1: u8, b2: u8) -> u8 {
    ((b1 & 0x0f) << 2) | (b2 >> 6)
}

/// The fourth: the lower six bits of the third byte.
pub open spec fn sextet3(b2: u8) -> u8 {
    b2 & 0x3f
}

/// The text that encodes `data`: four characters for every three bytes,
/// two or three characters for a last group of one or two bytes, and no
/// padding.
pub open spec fn encode(data: Seq<u8>) -> Seq<u8>
    decreases data.len(),
{
    if data.len() == 0 {
        Seq::empty()
    } else if data.len() == 1 {
        seq![symbol(sextet0(data[0])), symbol(sextet1(data[0], 0))]
    } else if data.len() == 2 {
        seq![
            symbol(sextet0(data[0])),
            symbol(sextet1(data[0], data[1])),
            symbol(sextet2(data[1], 0)),
        ]
    } else {
        seq![
            symbol(sextet0(data[0])),
            symbol(sextet1(data[0], data[1])),
            symbol(sextet2(data[1], data[2])),
            symbol(sextet3(data[2])),
        ] + encode(data.skip(3))
    }
}

proof fn lemma_sextets_in_range(b0: u8, b1: u8, b2: u8)
    ensures
        sextet0(b0) < 64,
        sextet1(b0, b1) < 64,
        sextet2(b1, b2) < 64,
        sextet3(b2) < 64,
{
    assert(b0 >> 2 < 64) by (bit_vector);
    assert(((b0 & 0x03) << 4) | (b1 >> 4) < 64) by (bit_vector);
    assert(((b1 & 0x0f) << 2) | (b2 >> 6) < 64) by (bit_vector);
    assert(b2 & 0x3f < 64) by (bit_vector);
}

/// Every character of an encoding belongs to the alphabet.
pub proof fn lemma_encode_symbols(data: Seq<u8>)
    ensures
        forall|i: int| 0 <= i < encode(data).len() ==> is_symbol(#[trigger] encode(data)[i]),
    decreases data.len(),
{
    if data.len() == 0 {
    } else if data.len() == 1 {
        lemma_sextets_in_range(data[0], 0, 0);
    } else if data.len() == 2 {
        lemma_sextets_in_range(data[0], data[1], 0);
    } else {
        lemma_sextets_in_range(data[0], data[1], data[2]);
        lemma_encode_symbols(data.skip(3));
        let rest = encode(data.skip(3));
        assert forall|i: int| 0 <= i < encode(data).len() implies is_symbol(
            #[trigger] encode(data)[i],
        ) by {
            if i >= 4 {
                assert(encode(data)[i] == rest[i - 4]);
            }
        }
    }
}

/// Encodes `data` in the URL-safe alphabet without padding.
pub fn encode_bytes(data: &[u8]) -> (out: Vec<u8>)
    ensures
        out@ == encode(data@),
{
    let mut out: Vec<u8> = Vec::new();
    let n: usize = data.len();
    let mut i: usize = 0;
    assert(data@.skip(0) == data@);
    while n - i >= 3
        invariant
            n == data@.len(),
            i <= n,
            encode(data@) == out@ + encode(data@.skip(i as int)),
        decreases n - i,
    {
        let b0: u8 = data[i];
        let b1: u8 = data[i + 1];
        let b2: u8 = data[i + 2];
        proof {
            lemma_sextets_in_range(b0, b1, b2);
            let rest = data@.skip(i as int);
            assert(rest.skip(3) == data@.skip(i + 3));
            assert(rest[0] == b0 && rest[1] == b1 && rest[2] == b2);
        }
        let ghost before = out@;
        out.push(symbol_of(b0 >> 2));
        out.push(symbol_of(((b0 & 0x03) << 4) | (b1 >> 4)));
        out.push(symbol_of(((b1 & 0x0f) << 2) | (b2 >> 6)));
        out.push(symbol_of(b2 & 0x3f));
        proof {
            let quad = seq![
                symbol(sextet0(b0)),
                symbol(sextet1(b0, b1)),
                symbol(sextet2(b1, b2)),
                symbol(sextet3(b2)),
            ];
            assert(out@ == before + quad);
            assert(before + (quad + encode(data@.skip(i + 3))) == (before + quad) + encode(
                data@.skip(i + 3),
            ));
        }
        i = i + 3;
    }
    if n - i == 1 {
        let b0: u8 = data[i];
        proof {
            lemma_sextets_in_range(b0, 0, 0);
            assert(((b0 & 0x03) << 4) == ((b0 & 0x03) << 4) | (0u8 >> 4)) by (bit_vector);
        }
        let ghost before = out@;
        out.push(symbol_of(b0 >> 2));
        out.push(symbol_of((b0 & 0x03) << 4));
        proof {
            let rest = data@.skip(i as int);
            assert(rest.len() == 1 && rest[0] == b0);
            assert(out@ == before + encode(rest));
        }
    } else if n - i == 2 {
        let b0: u8 = data[i];
        let b1: u8 = data[i + 1];
        proof {
            lemma_sextets_in_range(b0, b1, 0);
            assert(((b1 & 0x0f) << 2) == ((b1 & 0x0f) << 2) | (0u8 >> 6)) by (bit_vector);
        }
        let ghost before = out@;
        out.push(symbol_of(b0 >> 2));
        out.push(symbol_of(((b0 & 0x03) << 4) | (b1 >> 4)));
        out.push(symbol_of((b1 & 0x0f) << 2));
        proof {
            let rest = data@.skip(i as int);
            assert(rest.len() == 2 && rest[0] == b0 && rest[1] == b1);
            assert(out@ == before + encode(rest));
        }
    } else {
        assert(data@.skip(i as int).len() == 0);
        assert(out@ + Seq::<u8>::empty() == out@);
    }
    out
}

/// The character for a six-bit value.
fn symbol_of(v: u8) -> (c: u8)
    requires
        v < 64,
    ensures
        c == symbol(v),
{
    if v < 26 {
        'A' as u8 + v
    } else if v < 52 {
        'a' as u8 + (v - 26)
    } else if v < 62 {
        '0' as u8 + (v - 52)
    } else if v == 62 {
        '-' as u8
    } else {
        '_' as u8
    }
}

/// The first byte of a group, from its first two six-bit values.
pub open spec fn octet0(s0: u8, s1: u8) -> u8 {
    (s0 << 2) | (s1 >> 4)
}

/// The second byte of a group, from its second and third six-bit value.
pub open spec fn octet1(s1: u8, s2: u8) -> u8 {
    ((s1 & 0x0f) << 4) | (s2 >> 2)
}

/// The third byte of a group, from its last two six-bit values.
pub open spec fn octet2(s2: u8, s3: u8) -> u8 {
    ((s2 & 0x03) << 6) | s3
}

/// The bytes that `text` encodes; `None` where `text` is not the encoding
/// of any bytes. The text is read group by group.
pub closed spec fn decoding(text: Seq<u8>) -> Option<Seq<u8>>
    decreases text.len(),
{
    if text.len() == 0 {
        Some(Seq::empty())
    } else if text.len() == 1 {
        None
    } else if text.len() == 2 {
        match (symbol_value(text[0]), symbol_value(text[1])) {
            (Some(s0), Some(s1)) => if s1 & 0x0f == 0 {
                Some(seq![octet0(s0, s1)])
            } else {
                None
            },
            _ => None,
        }
    } else if text.len() == 3 {
        match (symbol_value(text[0]), symbol_value(text[1]), symbol_value(text[2])) {
            (Some(s0), Some(s1), Some(s2)) => if s2 & 0x03 == 0 {
                Some(seq![octet0(s0, s1), octet1(s1, s2)])
            } else {
                None
            },
            _ => None,
        }
    } else {
        match (
            symbol_value(text[0]),
            symbol_value(text[1]),
            symbol_value(text[2]),
            symbol_value(text[3]),
        ) {
            (Some(s0), Some(s1), Some(s2), Some(s3)) => prepend(
                seq![octet0(s0, s1), octet1(s1, s2), octet2(s2, s3)],
                decoding(text.skip(4)),
            ),
            _ => None,
        }
    }
}

/// `front` followed by `rest`, where there is a rest.
pub open spec fn prepend(front: Seq<u8>, rest: Option<Seq<u8>>) -> Option<Seq<u8>> {
    match rest {
        Some(r) => Some(front + r),
        None => None,
    }
}

/// A character stands for the value it was chosen for.
proof fn lemma_value_of_symbol(v: u8)
    requires
        v < 64,
    ensures
        symbol_value(symbol(v)) == Some(v),
{
}

/// A value is written as the character that stands for it.
proof fn lemma_symbol_of_value(c: u8)
    requires
        is_symbol(c),
    ensures
        symbol_value(c)->Some_0 < 64,
        symbol(symbol_value(c)->Some_0) == c,
{
}

proof fn lemma_octets_of_sextets(b0: u8, b1: u8, b2: u8)
    ensures
        octet0(sextet0(b0), sextet1(b0, b1)) == b0,
        octet1(sextet1(b0, b1), sextet2(b1, b2)) == b1,
        octet2(sextet2(b1, b2), sextet3(b2)) == b2,
        sextet1(b0, 0) & 0x0f == 0,
        sextet2(b1, 0) & 0x03 == 0,
{
    assert(((b0 >> 2) << 2) | ((((b0 & 0x03) << 4) | (b1 >> 4)) >> 4) == b0) by (bit_vector);
    assert((((((b0 & 0x03) << 4) | (b1 >> 4)) & 0x0f) << 4) | ((((b1 & 0x0f) << 2) | (b2 >> 6))
        >> 2) == b1) by (bit_vector);
    assert((((((b1 & 0x0f) << 2) | (b2 >> 6)) & 0x03) << 6) | (b2 & 0x3f) == b2) by (bit_vector);
    assert((((b0 & 0x03) << 4) | (0u8 >> 4)) & 0x0f == 0) by (bit_vector);
    assert((((b1 & 0x0f) << 2) | (0u8 >> 6)) & 0x03 == 0) by (bit_vector);
}

proof fn lemma_sextets_of_octets(s0: u8, s1: u8, s2: u8, s3: u8)
    requires
        s0 < 64,
        s1 < 64,
        s2 < 64,
        s3 < 64,
    ensures
        sextet0(octet0(s0, s1)) == s0,
        sextet1(octet0(s0, s1), octet1(s1, s2)) == s1,
        sextet2(octet1(s1, s2), octet2(s2, s3)) == s2,
        sextet3(octet2(s2, s3)) == s3,
        s1 & 0x0f == 0 ==> sextet1(octet0(s0, s1), 0) == s1,
        s2 & 0x03 == 0 ==> sextet2(octet1(s1, s2), 0) == s2,
{
    assert(((s0 << 2) | (s1 >> 4)) >> 2 == s0) by (bit_vector)
        requires
            s0 < 64,
            s1 < 64,
    ;
    assert(((((s0 << 2) | (s1 >> 4)) & 0x03) << 4) | ((((s1 & 0x0f) << 4) | (s2 >> 2)) >> 4)
        == s1) by (bit_vector)
        requires
            s1 < 64,
            s2 < 64,
    ;
    assert((((((s1 & 0x0f) << 4) | (s2 >> 2)) & 0x0f) << 2) | ((((s2 & 0x03) << 6) | s3) >> 6)
        == s2) by (bit_vector)
        requires
            s2 < 64,
            s3 < 64,
    ;
    assert((((s2 & 0x03) << 6) | s3) & 0x3f == s3) by (bit_vector)
        requires
            s3 < 64,
    ;
    assert(s1 & 0x0f == 0 ==> ((((s0 << 2) | (s1 >> 4)) & 0x03) << 4) | (0u8 >> 4) == s1)
        by (bit_vector)
        requires
            s1 < 64,
    ;
    assert(s2 & 0x03 == 0 ==> (((((s1 & 0x0f) << 4) | (s2 >> 2)) & 0x0f) << 2) | (0u8 >> 6)
        == s2) by (bit_vector)
        requires
            s2 < 64,
    ;
}

/// Reading an encoding gives back the bytes that were encoded.
pub proof fn lemma_decoding_of_encode(data: Seq<u8>)
    ensures
        decoding(encode(data)) == Some(data),
    decreases data.len(),
{
    let text = encode(data);
    if data.len() == 0 {
        assert(data =~= Seq::empty());
    } else if data.len() == 1 {
        lemma_sextets_in_range(data[0], 0, 0);
        lemma_octets_of_sextets(data[0], 0, 0);
        lemma_value_of_symbol(sextet0(data[0]));
        lemma_value_of_symbol(sextet1(data[0], 0));
        assert(seq![data[0]] =~= data);
    } else if data.len() == 2 {
        lemma_sextets_in_range(data[0], data[1], 0);
        lemma_octets_of_sextets(data[0], data[1], 0);
        lemma_value_of_symbol(sextet0(data[0]));
        lemma_value_of_symbol(sextet1(data[0], data[1]));
        lemma_value_of_symbol(sextet2(data[1], 0));
        assert(seq![data[0], data[1]] =~= data);
    } else {
        lemma_sextets_in_range(data[0], data[1], data[2]);
        lemma_octets_of_sextets(data[0], data[1], data[2]);
        lemma_value_of_symbol(sextet0(data[0]));
        lemma_value_of_symbol(sextet1(data[0], data[1]));
        lemma_value_of_symbol(sextet2(data[1], data[2]));
        lemma_value_of_symbol(sextet3(data[2]));
        lemma_decoding_of_encode(data.skip(3));
        assert(text.skip(4) =~= encode(data.skip(3)));
        assert(seq![data[0], data[1], data[2]] + data.skip(3) =~= data);
    }
}

/// Whatever a text reads as, the text is the encoding of it.
pub proof fn lemma_encode_of_decoding(text: Seq<u8>)
    requires
        decoding(text) is Some,
    ensures
        encode(decoding(text)->Some_0) == text,
    decreases text.len(),
{
    let data = decoding(text)->Some_0;
    if text.len() == 0 {
        assert(text =~= Seq::empty());
    } else if text.len() == 2 {
        lemma_symbol_of_value(text[0]);
        lemma_symbol_of_value(text[1]);
        let s0 = symbol_value(text[0])->Some_0;
        let s1 = symbol_value(text[1])->Some_0;
        lemma_sextets_of_octets(s0, s1, 0, 0);
        assert(encode(data) =~= text);
    } else if text.len() == 3 {
        lemma_symbol_of_value(text[0]);
        lemma_symbol_of_value(text[1]);
        lemma_symbol_of_value(text[2]);
        let s0 = symbol_value(text[0])->Some_0;
        let s1 = symbol_value(text[1])->Some_0;
        let s2 = symbol_value(text[2])->Some_0;
        lemma_sextets_of_octets(s0, s1, s2, 0);
        assert(encode(data) =~= text);
    } else {
        lemma_symbol_of_value(text[0]);
        lemma_symbol_of_value(text[1]);
        lemma_symbol_of_value(text[2]);
        lemma_symbol_of_value(text[3]);
        let s0 = symbol_value(text[0])->Some_0;
        let s1 = symbol_value(text[1])->Some_0;
        let s2 = symbol_value(text[2])->Some_0;
        let s3 = symbol_value(text[3])->Some_0;
        lemma_sextets_of_octets(s0, s1, s2, s3);
        lemma_encode_of_decoding(text.skip(4));
        let rest = decoding(text.skip(4))->Some_0;
        assert(data.skip(3) =~= rest);
        assert(encode(data) =~= text);
    }
}

/// An encoding is empty only for no bytes, and never longer than twice
/// the bytes it encodes.
pub proof fn lemma_encode_len(data: Seq<u8>)
    ensures
        encode(data).len() <= 2 * data.len(),
        data.len() > 0 ==> encode(data).len() > 0,
    decreases data.len(),
{
    if data.len() >= 3 {
        lemma_encode_len(data.skip(3));
    }
}

/// Two byte strings with the same encoding are the same.
pub proof fn lemma_encode_injective(a: Seq<u8>, b: Seq<u8>)
    requires
        encode(a) == encode(b),
    ensures
        a == b,
{
    lemma_decoding_of_encode(a);
    lemma_decoding_of_encode(b);
}

/// The six-bit value of a character of the alphabet.
fn value_of(c: u8) -> (v: Option<u8>)
    ensures
        v == symbol_value(c),
{
    if 'A' as u8 <= c && c <= 'Z' as u8 {
        Some(c - 'A' as u8)
    } else if 'a' as u8 <= c && c <= 'z' as u8 {
        Some(c - 'a' as u8 + 26)
    } else if '0' as u8 <= c && c <= '9' as u8 {
        Some(c - '0' as u8 + 52)
    } else if c == '-' as u8 {
        Some(62)
    } else if c == '_' as u8 {
        Some(63)
    } else {
        None
    }
}

/// Decodes `text`; `None` unless `text` is exactly what `encode_bytes`
/// gives for some bytes, which are then the result.
pub fn decode_bytes(text: &[u8]) -> (out: Option<Vec<u8>>)
    ensures
        match out {
            Some(data) => encode(data@) == text@ && decoding(text@) == Some(data@),
            None => decoding(text@) is None && forall|data: Seq<u8>| encode(data) != text@,
        },
{
    let mut out: Vec<u8> = Vec::new();
    let n: usize = text.len();
    let mut i: usize = 0;
    let mut valid: bool = true;
    assert(text@.skip(0) == text@);
    assert(Seq::<u8>::empty() + decoding(text@)->Some_0 =~= decoding(text@)->Some_0);
    while valid && n - i >= 4
        invariant
            n == text@.len(),
            i <= n,
            valid ==> decoding(text@) == prepend(out@, decoding(text@.skip(i as int))),
            !valid ==> decoding(text@) is None,
        decreases n - i + (if valid { 1int } else { 0int }),
    {
        let ghost rest = text@.skip(i as int);
        proof {
            assert(rest.skip(4) == text@.skip(i + 4));
            assert(rest[0] == text@[i as int] && rest[1] == text@[i + 1]);
            assert(rest[2] == text@[i + 2] && rest[3] == text@[i + 3]);
        }
        match (value_of(text[i]), value_of(text[i + 1]), value_of(text[i + 2]), value_of(
            text[i + 3],
        )) {
            (Some(s0), Some(s1), Some(s2), Some(s3)) => {
                let ghost before = out@;
                out.push((s0 << 2) | (s1 >> 4));
                out.push(((s1 & 0x0f) << 4) | (s2 >> 2));
                out.push(((s2 & 0x03) << 6) | s3);
                proof {
                    let group = seq![octet0(s0, s1), octet1(s1, s2), octet2(s2, s3)];
                    assert(out@ == before + group);
                    if decoding(rest.skip(4)) is Some {
                        let tail = decoding(rest.skip(4))->Some_0;
                        assert(before + (group + tail) == (before + group) + tail);
                    }
                }
                i = i + 4;
            },
            _ => {
                valid = false;
            },
        }
    }
    if valid {
        let ghost rest = text@.skip(i as int);
        if n - i == 1 {
            valid = false;
        } else if n - i == 2 {
            proof {
                assert(rest[0] == text@[i as int] && rest[1] == text@[i + 1]);
            }
            match (value_of(text[i]), value_of(text[i + 1])) {
                (Some(s0), Some(s1)) => {
                    if s1 & 0x0f == 0 {
                        out.push((s0 << 2) | (s1 >> 4));
                    } else {
                        valid = false;
                    }
                },
                _ => {
                    valid = false;
                },
            }
        } else if n - i == 3 {
            proof {
                assert(rest[0] == text@[i as int] && rest[1] == text@[i + 1]);
                assert(rest[2] == text@[i + 2]);
            }
            match (value_of(text[i]), value_of(text[i + 1]), value_of(text[i + 2])) {
                (Some(s0), Some(s1), Some(s2)) => {
                    if s2 & 0x03 == 0 {
                        out.push((s0 << 2) | (s1 >> 4));
                        out.push(((s1 & 0x0f) << 4) | (s2 >> 2));
                    } else {
                        valid = false;
                    }
                },
                _ => {
                    valid = false;
                },
            }
        } else {
            proof {
                assert(out@ + Seq::<u8>::empty() == out@);
            }
        }
    }
    if valid {
        proof {
            assert(decoding(text@) == Some(out@));
            lemma_encode_of_decoding(text@);
        }
        Some(out)
    } else {
        proof {
            assert forall|data: Seq<u8>| encode(data) != text@ by {
                if encode(data) == text@ {
                    lemma_decoding_of_encode(data);
                }
            }
        }
        None
    }
}

} // verus!
