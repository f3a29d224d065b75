//! base64url codec: URL-safe alphabet, no padding, canonical form only.
//!
//! The decoder accepts exactly the strings the encoder produces: trailing
//! bits of a partial final group must be zero, so every byte sequence has
//! one encoding and every valid encoding one decoding.

use vstd::prelude::*;

verus! {

/// Value of one base64url digit, or -1 where the byte is no digit.
pub open spec fn b64_val(c: u8) -> int {
    if 65 <= c && c <= 90 {
        c - 65
    } else if 97 <= c && c <= 122 {
        c - 97 + 26
    } else if 48 <= c && c <= 57 {
        c - 48 + 52
    } else if c == 45 {
        62
    } else if c == 95 {
        63
    } else {
        -1
    }
}

/// Whether a byte is a base64url digit.
pub open spec fn is_b64(c: u8) -> bool {
    b64_val(c) >= 0
}

/// Digit value as a byte; meaningful only where `is_b64` holds.
pub open spec fn vu(c: u8) -> u8 {
    if b64_val(c) >= 0 {
        b64_val(c) as u8
    } else {
        0
    }
}

/// base64url digit of a 6-bit value.
pub open spec fn b64_char(v: u8) -> u8 {
    if v < 26 {
        (65 + v) as u8
    } else if v < 52 {
        (97 + (v - 26)) as u8
    } else if v < 62 {
        (48 + (v - 52)) as u8
    } else if v == 62 {
        45u8
    } else {
        95u8
    }
}

/// Encoding of a byte sequence, three input bytes to four digits,
/// with a two- or three-digit final group for a partial tail.
pub open spec fn b64_encode_seq(s: Seq<u8>) -> Seq<u8>
    decreases s.len(),
{
    if s.len() == 0 {
        Seq::<u8>::empty()
    } else if s.len() == 1 {
        seq![b64_char(s[0] >> 2), b64_char((s[0] & 3) << 4)]
    } else if s.len() == 2 {
        seq![
            b64_char(s[0] >> 2),
            b64_char(((s[0] & 3) << 4) | (s[1] >> 4)),
            b64_char((s[1] & 15) << 2),
        ]
    } else {
        seq![
            b64_char(s[0] >> 2),
            b64_char(((s[0] & 3) << 4) | (s[1] >> 4)),
            b64_char(((s[1] & 15) << 2) | (s[2] >> 6)),
            b64_char(s[2] & 63),
        ] + b64_encode_seq(s.skip(3))
    }
}

/// First byte reassembled from digits 0 and 1 of a group.
pub open spec fn b64_byte0(c0: u8, c1: u8) -> u8 {
    (vu(c0) << 2) | (vu(c1) >> 4)
}

/// Second byte reassembled from digits 1 and 2 of a group.
pub open spec fn b64_byte1(c1: u8, c2: u8) -> u8 {
    ((vu(c1) & 15) << 4) | (vu(c2) >> 2)
}

/// Third byte reassembled from digits 2 and 3 of a group.
pub open spec fn b64_byte2(c2: u8, c3: u8) -> u8 {
    ((vu(c2) & 3) << 6) | vu(c3)
}

/// Canonical decoding: `Some` exactly on strings the encoder produces.
pub open spec fn b64_decode_seq(s: Seq<u8>) -> Option<Seq<u8>>
    decreases s.len(),
{
    if s.len() == 0 {
        Some(Seq::<u8>::empty())
    } else if s.len() == 1 {
        None::<Seq<u8>>
    } else if s.len() == 2 {
        if is_b64(s[0]) && is_b64(s[1]) && vu(s[1]) & 15 == 0 {
            Some(seq![b64_byte0(s[0], s[1])])
        } else {
            None::<Seq<u8>>
        }
    } else if s.len() == 3 {
        if is_b64(s[0]) && is_b64(s[1]) && is_b64(s[2]) && vu(s[2]) & 3 == 0 {
            Some(seq![b64_byte0(s[0], s[1]), b64_byte1(s[1], s[2])])
        } else {
            None::<Seq<u8>>
        }
    } else {
        if is_b64(s[0]) && is_b64(s[1]) && is_b64(s[2]) && is_b64(s[3]) {
            match b64_decode_seq(s.skip(4)) {
                Some(rest) => Some(
                    seq![
                        b64_byte0(s[0], s[1]),
                        b64_byte1(s[1], s[2]),
                        b64_byte2(s[2], s[3]),
                    ] + rest,
                ),
                None => None::<Seq<u8>>,
            }
        } else {
            None::<Seq<u8>>
        }
    }
}

/// Exec form of `b64_char`.
fn b64_char_x(v: u8) -> (r: u8)
    requires
        v < 64,
    ensures
        r == b64_char(v),
{
    if v < 26 {
        65 + v
    } else if v < 52 {
        97 + (v - 26)
    } else if v < 62 {
        48 + (v - 52)
    } else if v == 62 {
        45
    } else {
        95
    }
}

/// Exec form of `b64_val`.
fn b64_val_x(c: u8) -> (r: Option<u8>)
    ensures
        match r {
            Some(v) => b64_val(c) == v as int && v < 64,
            None => b64_val(c) == -1,
        },
{
    if 65 <= c && c <= 90 {
        Some(c - 65)
    } else if 97 <= c && c <= 122 {
        Some(c - 97 + 26)
    } else if 48 <= c && c <= 57 {
        Some(c - 48 + 52)
    } else if c == 45 {
        Some(62)
    } else if c == 95 {
        Some(63)
    } else {
        None
    }
}

/// Encodes a byte slice as base64url without padding.
pub fn b64_encode(input: &[u8]) -> (r: Vec<u8>)
    ensures
        r@ == b64_encode_seq(input@),
{
    let n = input.len();
    let mut out: Vec<u8> = Vec::new();
    let mut i: usize = 0;
    proof {
        assert(input@.skip(0) =~= input@);
        assert(out@ + b64_encode_seq(input@) =~= b64_encode_seq(input@));
    }
    while n - i >= 3
        invariant
            i <= n,
            n == input@.len(),
            b64_encode_seq(input@) == out@ + b64_encode_seq(input@.skip(i as int)),
        decreases n - i,
    {
        let b0 = input[i];
        let b1 = input[i + 1];
        let b2 = input[i + 2];
        proof {
            assert(b0 >> 2 < 64 && ((b0 & 3) << 4) | (b1 >> 4) < 64 && ((b1 & 15) << 2) | (b2
                >> 6) < 64 && b2 & 63 < 64) by (bit_vector);
            assert(input@.skip(i as int)[0] == b0 && input@.skip(i as int)[1] == b1 && input@.skip(
                i as int,
            )[2] == b2);
            assert(input@.skip(i as int).skip(3) =~= input@.skip(i as int + 3));
        }
        out.push(b64_char_x(b0 >> 2));
        out.push(b64_char_x(((b0 & 3) << 4) | (b1 >> 4)));
        out.push(b64_char_x(((b1 & 15) << 2) | (b2 >> 6)));
        out.push(b64_char_x(b2 & 63));
        i += 3;
        proof {
            assert(b64_encode_seq(input@) == out@ + b64_encode_seq(input@.skip(i as int)));
        }
    }
    if n - i == 1 {
        let b0 = input[i];
        proof {
            assert(b0 >> 2 < 64 && (b0 & 3) << 4 < 64) by (bit_vector);
            assert(input@.skip(i as int)[0] == b0);
        }
        out.push(b64_char_x(b0 >> 2));
        out.push(b64_char_x((b0 & 3) << 4));
        proof {
            assert(out@ =~= b64_encode_seq(input@));
        }
    } else if n - i == 2 {
        let b0 = input[i];
        let b1 = input[i + 1];
        proof {
            assert(b0 >> 2 < 64 && ((b0 & 3) << 4) | (b1 >> 4) < 64 && (b1 & 15) << 2
                < 64) by (bit_vector);
            assert(input@.skip(i as int)[0] == b0 && input@.skip(i as int)[1] == b1);
        }
        out.push(b64_char_x(b0 >> 2));
        out.push(b64_char_x(((b0 & 3) << 4) | (b1 >> 4)));
        out.push(b64_char_x((b1 & 15) << 2));
        proof {
            assert(out@ =~= b64_encode_seq(input@));
        }
    } else {
        proof {
            assert(input@.skip(i as int) =~= Seq::<u8>::empty());
            assert(out@ =~= b64_encode_seq(input@));
        }
    }
    out
}

/// Decodes canonical base64url; `None` on any other input.
pub fn b64_decode(input: &[u8]) -> (r: Option<Vec<u8>>)
    ensures
        match r {
            Some(v) => b64_decode_seq(input@) == Some(v@),
            None => b64_decode_seq(input@) is None,
        },
{
    let n = input.len();
    let mut out: Vec<u8> = Vec::new();
    let mut i: usize = 0;
    proof {
        assert(input@.skip(0) =~= input@);
    }
    while n - i >= 4
        invariant
            i <= n,
            n == input@.len(),
            b64_decode_seq(input@) == match b64_decode_seq(input@.skip(i as int)) {
                Some(rest) => Some(out@ + rest),
                None => None::<Seq<u8>>,
            },
        decreases n - i,
    {
        let c0 = input[i];
        let c1 = input[i + 1];
        let c2 = input[i + 2];
        let c3 = input[i + 3];
        proof {
            assert(input@.skip(i as int)[0] == c0 && input@.skip(i as int)[1] == c1 && input@.skip(
                i as int,
            )[2] == c2 && input@.skip(i as int)[3] == c3);
            assert(input@.skip(i as int).skip(4) =~= input@.skip(i as int + 4));
        }
        let v0 = match b64_val_x(c0) {
            Some(v) => v,
            None => {
                return None;
            },
        };
        let v1 = match b64_val_x(c1) {
            Some(v) => v,
            None => {
                return None;
            },
        };
        let v2 = match b64_val_x(c2) {
            Some(v) => v,
            None => {
                return None;
            },
        };
        let v3 = match b64_val_x(c3) {
            Some(v) => v,
            None => {
                return None;
            },
        };
        out.push((v0 << 2) | (v1 >> 4));
        out.push(((v1 & 15) << 4) | (v2 >> 2));
        out.push(((v2 & 3) << 6) | v3);
        i += 4;
    }
    if n - i == 1 {
        return None;
    } else if n - i == 2 {
        let c0 = input[i];
        let c1 = input[i + 1];
        proof {
            assert(input@.skip(i as int)[0] == c0 && input@.skip(i as int)[1] == c1);
        }
        let v0 = match b64_val_x(c0) {
            Some(v) => v,
            None => {
                return None;
            },
        };
        let v1 = match b64_val_x(c1) {
            Some(v) => v,
            None => {
                return None;
            },
        };
        if v1 & 15 != 0 {
            return None;
        }
        out.push((v0 << 2) | (v1 >> 4));
    } else if n - i == 3 {
        let c0 = input[i];
        let c1 = input[i + 1];
        let c2 = input[i + 2];
        proof {
            assert(input@.skip(i as int)[0] == c0 && input@.skip(i as int)[1] == c1 && input@.skip(
                i as int,
            )[2] == c2);
        }
        let v0 = match b64_val_x(c0) {
            Some(v) => v,
            None => {
                return None;
            },
        };
        let v1 = match b64_val_x(c1) {
            Some(v) => v,
            None => {
                return None;
            },
        };
        let v2 = match b64_val_x(c2) {
            Some(v) => v,
            None => {
                return None;
            },
        };
        if v2 & 3 != 0 {
            return None;
        }
        out.push((v0 << 2) | (v1 >> 4));
        out.push(((v1 & 15) << 4) | (v2 >> 2));
    } else {
        proof {
            assert(input@.skip(i as int) =~= Seq::<u8>::empty());
        }
    }
    Some(out)
}

/// A 6-bit value survives the trip through its digit.
pub proof fn lemma_char_val(v: u8)
    requires
        v < 64,
    ensures
        b64_val(b64_char(v)) == v as int,
        is_b64(b64_char(v)),
        vu(b64_char(v)) == v,
{
}

/// Every digit of an encoding is in the alphabet, hence ASCII and not '.'.
pub proof fn lemma_encode_all_b64(s: Seq<u8>)
    ensures
        forall|j: int|
            0 <= j < b64_encode_seq(s).len() ==> is_b64(#[trigger] b64_encode_seq(s)[j]),
    decreases s.len(),
{
    if s.len() == 0 {
    } else if s.len() == 1 {
        let b0 = s[0];
        assert(b0 >> 2 < 64 && (b0 & 3) << 4 < 64) by (bit_vector);
        lemma_char_val(b0 >> 2);
        lemma_char_val((b0 & 3) << 4);
    } else if s.len() == 2 {
        let b0 = s[0];
        let b1 = s[1];
        assert(b0 >> 2 < 64 && ((b0 & 3) << 4) | (b1 >> 4) < 64 && (b1 & 15) << 2
            < 64) by (bit_vector);
        lemma_char_val(b0 >> 2);
        lemma_char_val(((b0 & 3) << 4) | (b1 >> 4));
        lemma_char_val((b1 & 15) << 2);
    } else {
        let b0 = s[0];
        let b1 = s[1];
        let b2 = s[2];
        assert(b0 >> 2 < 64 && ((b0 & 3) << 4) | (b1 >> 4) < 64 && ((b1 & 15) << 2) | (b2 >> 6)
            < 64 && b2 & 63 < 64) by (bit_vector);
        lemma_char_val(b0 >> 2);
        lemma_char_val(((b0 & 3) << 4) | (b1 >> 4));
        lemma_char_val(((b1 & 15) << 2) | (b2 >> 6));
        lemma_char_val(b2 & 63);
        lemma_encode_all_b64(s.skip(3));
        assert forall|j: int| 0 <= j < b64_encode_seq(s).len() implies is_b64(
            #[trigger] b64_encode_seq(s)[j],
        ) by {
            if j >= 4 {
                assert(b64_encode_seq(s)[j] == b64_encode_seq(s.skip(3))[j - 4]);
            }
        }
    }
}

/// Decoding inverts encoding: the codec round-trips on every byte sequence.
pub proof fn lemma_b64_round_trip(b: Seq<u8>)
    ensures
        b64_decode_seq(b64_encode_seq(b)) == Some(b),
    decreases b.len(),
{
    let e = b64_encode_seq(b);
    if b.len() == 0 {
        assert(b =~= Seq::<u8>::empty());
    } else if b.len() == 1 {
        let b0 = b[0];
        assert(b0 >> 2 < 64 && (b0 & 3) << 4 < 64) by (bit_vector);
        lemma_char_val(b0 >> 2);
        lemma_char_val((b0 & 3) << 4);
        assert(((b0 & 3) << 4) & 15 == 0) by (bit_vector);
        assert(((b0 >> 2) << 2) | (((b0 & 3) << 4) >> 4) == b0) by (bit_vector);
        assert(b64_decode_seq(e) == Some(seq![b0]));
        assert(seq![b0] =~= b);
    } else if b.len() == 2 {
        let b0 = b[0];
        let b1 = b[1];
        assert(b0 >> 2 < 64 && ((b0 & 3) << 4) | (b1 >> 4) < 64 && (b1 & 15) << 2
            < 64) by (bit_vector);
        lemma_char_val(b0 >> 2);
        lemma_char_val(((b0 & 3) << 4) | (b1 >> 4));
        lemma_char_val((b1 & 15) << 2);
        assert(((b1 & 15) << 2) & 3 == 0) by (bit_vector);
        assert(((b0 >> 2) << 2) | ((((b0 & 3) << 4) | (b1 >> 4)) >> 4) == b0) by (bit_vector);
        assert((((((b0 & 3) << 4) | (b1 >> 4)) & 15) << 4) | (((b1 & 15) << 2) >> 2)
            == b1) by (bit_vector);
        assert(b64_decode_seq(e) == Some(seq![b0, b1]));
        assert(seq![b0, b1] =~= b);
    } else {
        let b0 = b[0];
        let b1 = b[1];
        let b2 = b[2];
        assert(b0 >> 2 < 64 && ((b0 & 3) << 4) | (b1 >> 4) < 64 && ((b1 & 15) << 2) | (b2 >> 6)
            < 64 && b2 & 63 < 64) by (bit_vector);
        lemma_char_val(b0 >> 2);
        lemma_char_val(((b0 & 3) << 4) | (b1 >> 4));
        lemma_char_val(((b1 & 15) << 2) | (b2 >> 6));
        lemma_char_val(b2 & 63);
        lemma_b64_round_trip(b.skip(3));
        let rest = b64_encode_seq(b.skip(3));
        assert(e.skip(4) =~= rest);
        assert(e.len() >= 4);
        assert(((b0 >> 2) << 2) | ((((b0 & 3) << 4) | (b1 >> 4)) >> 4) == b0) by (bit_vector);
        assert((((((b0 & 3) << 4) | (b1 >> 4)) & 15) << 4) | ((((b1 & 15) << 2) | (b2 >> 6)) >> 2)
            == b1) by (bit_vector);
        assert((((((b1 & 15) << 2) | (b2 >> 6)) & 3) << 6) | (b2 & 63) == b2) by (bit_vector);
        assert(b64_decode_seq(e) == Some(seq![b0, b1, b2] + b.skip(3)));
        assert(seq![b0, b1, b2] + b.skip(3) =~= b);
    }
}

} // verus!
