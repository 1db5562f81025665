use vstd::prelude::*;

verus! {

/// The symbol of the URL- and filename-safe base64 alphabet for a six-bit
/// value.
pub open spec fn b64_symbol(n: u8) -> char {
    if n < 26 {
        ((n + 65) as u32) as char
    } else if n < 52 {
        ((n + 71) as u32) as char
    } else if n < 62 {
        ((n - 4) as u32) as char
    } else if n == 62 {
        '-'
    } else {
        '_'
    }
}

/// The six-bit value of a symbol of the URL- and filename-safe base64
/// alphabet.
pub open spec fn b64_value(c: char) -> u8 {
    let u = c as u32;
    if 65 <= u <= 90 {
        (u - 65) as u8
    } else if 97 <= u <= 122 {
        (u - 71) as u8
    } else if 48 <= u <= 57 {
        (u + 4) as u8
    } else if c == '-' {
        62
    } else {
        63
    }
}

/// URL-safe base64 without padding: each group of three bytes becomes four
/// symbols, and a final group of one or two bytes becomes two or three.
pub open spec fn base64_nopad(d: Seq<u8>) -> Seq<char>
    decreases d.len(),
{
    if d.len() == 0 {
        seq![]
    } else if d.len() == 1 {
        seq![b64_symbol(d[0] >> 2), b64_symbol((d[0] & 3) << 4)]
    } else if d.len() == 2 {
        seq![
            b64_symbol(d[0] >> 2),
            b64_symbol(((d[0] & 3) << 4) | (d[1] >> 4)),
            b64_symbol((d[1] & 15) << 2),
        ]
    } else {
        seq![
            b64_symbol(d[0] >> 2),
            b64_symbol(((d[0] & 3) << 4) | (d[1] >> 4)),
            b64_symbol(((d[1] & 15) << 2) | (d[2] >> 6)),
            b64_symbol(d[2] & 63),
        ] + base64_nopad(d.subrange(3, d.len() as int))
    }
}

/// Decoding of unpadded URL-safe base64, the inverse of `base64_nopad`.
pub open spec fn base64_decode(s: Seq<char>) -> Seq<u8>
    decreases s.len(),
{
    if s.len() < 2 {
        seq![]
    } else {
        let a = b64_value(s[0]);
        let b = b64_value(s[1]);
        if s.len() == 2 {
            seq![(a << 2) | (b >> 4)]
        } else {
            let c = b64_value(s[2]);
            if s.len() == 3 {
                seq![(a << 2) | (b >> 4), ((b & 15) << 4) | (c >> 2)]
            } else {
                let e = b64_value(s[3]);
                seq![(a << 2) | (b >> 4), ((b & 15) << 4) | (c >> 2), ((c & 3) << 6) | e]
                    + base64_decode(s.subrange(4, s.len() as int))
            }
        }
    }
}

proof fn lemma_symbol_value(n: u8)
    requires
        n < 64,
    ensures
        b64_value(b64_symbol(n)) == n,
{
}

proof fn lemma_group(x: u8, y: u8, z: u8)
    ensures
        x >> 2 < 64,
        ((x & 3) << 4) | (y >> 4) < 64,
        ((y & 15) << 2) | (z >> 6) < 64,
        z & 63 < 64,
        (x & 3) << 4 < 64,
        (y & 15) << 2 < 64,
        ((x >> 2) << 2) | ((((x & 3) << 4) | (y >> 4)) >> 4) == x,
        ((x >> 2) << 2) | (((x & 3) << 4) >> 4) == x,
        (((((x & 3) << 4) | (y >> 4)) & 15) << 4) | ((((y & 15) << 2) | (z >> 6)) >> 2) == y,
        (((((x & 3) << 4) | (y >> 4)) & 15) << 4) | (((y & 15) << 2) >> 2) == y,
        (((((y & 15) << 2) | (z >> 6)) & 3) << 6) | (z & 63) == z,
{
    assert(x >> 2 < 64) by (bit_vector);
    assert(((x & 3) << 4) | (y >> 4) < 64) by (bit_vector);
    assert(((y & 15) << 2) | (z >> 6) < 64) by (bit_vector);
    assert(z & 63 < 64) by (bit_vector);
    assert((x & 3) << 4 < 64) by (bit_vector);
    assert((y & 15) << 2 < 64) by (bit_vector);
    assert(((x >> 2) << 2) | ((((x & 3) << 4) | (y >> 4)) >> 4) == x) by (bit_vector);
    assert(((x >> 2) << 2) | (((x & 3) << 4) >> 4) == x) by (bit_vector);
    assert((((((x & 3) << 4) | (y >> 4)) & 15) << 4) | ((((y & 15) << 2) | (z >> 6)) >> 2) == y)
        by (bit_vector);
    assert((((((x & 3) << 4) | (y >> 4)) & 15) << 4) | (((y & 15) << 2) >> 2) == y)
        by (bit_vector);
    assert((((((y & 15) << 2) | (z >> 6)) & 3) << 6) | (z & 63) == z) by (bit_vector);
}

/// Decoding the unpadded base64 encoding of a byte string gives back that byte
/// string.
pub proof fn lemma_base64_round_trip(d: Seq<u8>)
    ensures
        base64_decode(base64_nopad(d)) == d,
    decreases d.len(),
{
    if d.len() == 0 {
    } else if d.len() == 1 {
        lemma_group(d[0], 0, 0);
        lemma_symbol_value(d[0] >> 2);
        lemma_symbol_value((d[0] & 3) << 4);
        assert(base64_decode(base64_nopad(d)) =~= d);
    } else if d.len() == 2 {
        lemma_group(d[0], d[1], 0);
        lemma_symbol_value(d[0] >> 2);
        lemma_symbol_value(((d[0] & 3) << 4) | (d[1] >> 4));
        lemma_symbol_value((d[1] & 15) << 2);
        assert(base64_decode(base64_nopad(d)) =~= d);
    } else {
        let rest = d.subrange(3, d.len() as int);
        lemma_base64_round_trip(rest);
        lemma_group(d[0], d[1], d[2]);
        lemma_symbol_value(d[0] >> 2);
        lemma_symbol_value(((d[0] & 3) << 4) | (d[1] >> 4));
        lemma_symbol_value(((d[1] & 15) << 2) | (d[2] >> 6));
        lemma_symbol_value(d[2] & 63);
        let s = base64_nopad(d);
        assert(s.subrange(4, s.len() as int) =~= base64_nopad(rest));
        assert(base64_decode(s) =~= d);
    }
}

/// Whether a character may stand in a path segment as it is: a letter, a
/// digit, `-` or `_`.
pub open spec fn segment_safe(c: char) -> bool {
    ('A' <= c <= 'Z') || ('a' <= c <= 'z') || ('0' <= c <= '9') || c == '-' || c == '_'
}

proof fn lemma_symbol_safe(n: u8)
    requires
        n < 64,
    ensures
        segment_safe(b64_symbol(n)),
{
}

/// Every symbol of an encoding is a letter, a digit, `-` or `_`: no `/`,
/// `+` or `=`.
pub proof fn lemma_base64_safe(d: Seq<u8>)
    ensures
        forall|i: int| 0 <= i < base64_nopad(d).len() ==> segment_safe(#[trigger] base64_nopad(d)[i]),
    decreases d.len(),
{
    if d.len() == 0 {
    } else if d.len() == 1 {
        lemma_group(d[0], 0, 0);
        lemma_symbol_safe(d[0] >> 2);
        lemma_symbol_safe((d[0] & 3) << 4);
    } else if d.len() == 2 {
        lemma_group(d[0], d[1], 0);
        lemma_symbol_safe(d[0] >> 2);
        lemma_symbol_safe(((d[0] & 3) << 4) | (d[1] >> 4));
        lemma_symbol_safe((d[1] & 15) << 2);
    } else {
        let rest = d.subrange(3, d.len() as int);
        lemma_base64_safe(rest);
        lemma_group(d[0], d[1], d[2]);
        lemma_symbol_safe(d[0] >> 2);
        lemma_symbol_safe(((d[0] & 3) << 4) | (d[1] >> 4));
        lemma_symbol_safe(((d[1] & 15) << 2) | (d[2] >> 6));
        lemma_symbol_safe(d[2] & 63);
        let s = base64_nopad(d);
        assert forall|i: int| 0 <= i < s.len() implies segment_safe(#[trigger] s[i]) by {
            if i >= 4 {
                assert(s[i] == base64_nopad(rest)[i - 4]);
            }
        }
    }
}

} // verus!
