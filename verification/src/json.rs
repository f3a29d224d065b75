//! JSON encoding of the token's header and claims, and its reading.
//!
//! The serializers emit one canonical form: compact objects in a fixed
//! member order, strings with `\"` and `\\` escapes (control bytes as
//! `\u00XX`), numbers in shortest decimal form.  The parsers accept more:
//! any compact flat object — members in any order, unknown members
//! ignored, values strings or unsigned integers in the same forms — and
//! every accepted byte string reads in exactly one way, proved through
//! `obj_bytes` uniqueness.

use vstd::prelude::*;

verus! {

/// Lower-case hex digit of a value below 16.
pub open spec fn hex_digit(v: u8) -> u8 {
    if v < 10 {
        (48 + v) as u8
    } else {
        (87 + v) as u8
    }
}

/// JSON encoding of one byte of string content.
pub open spec fn esc_byte(x: u8) -> Seq<u8> {
    if x == 34 {
        seq![92u8, 34u8]
    } else if x == 92 {
        seq![92u8, 92u8]
    } else if x < 32 {
        seq![92u8, 117u8, 48u8, 48u8, hex_digit(x >> 4), hex_digit(x & 15)]
    } else {
        seq![x]
    }
}

/// JSON encoding of string content, byte by byte.
pub open spec fn jstr(s: Seq<u8>) -> Seq<u8>
    decreases s.len(),
{
    if s.len() == 0 {
        Seq::<u8>::empty()
    } else {
        esc_byte(s[0]) + jstr(s.skip(1))
    }
}

/// Whether a byte is a decimal digit.
pub open spec fn is_digit(c: u8) -> bool {
    48 <= c && c <= 57
}

/// Shortest decimal form of a number.
pub open spec fn dec_digits(n: nat) -> Seq<u8>
    decreases n,
{
    if n < 10 {
        seq![(48 + n) as u8]
    } else {
        dec_digits(n / 10) + seq![(48 + n % 10) as u8]
    }
}

/// Value of a digit string.
pub open spec fn dec_val(s: Seq<u8>) -> int
    decreases s.len(),
{
    if s.len() == 0 {
        0
    } else {
        dec_val(s.take(s.len() - 1)) * 10 + (s.last() - 48)
    }
}

/// `{"iss":"`
pub open spec fn lit_iss() -> Seq<u8> {
    seq![123u8, 34u8, 105u8, 115u8, 115u8, 34u8, 58u8, 34u8]
}

/// `","iat":`
pub open spec fn lit_iat() -> Seq<u8> {
    seq![34u8, 44u8, 34u8, 105u8, 97u8, 116u8, 34u8, 58u8]
}

/// `,"exp":`
pub open spec fn lit_exp() -> Seq<u8> {
    seq![44u8, 34u8, 101u8, 120u8, 112u8, 34u8, 58u8]
}

/// `{"alg":"`
pub open spec fn lit_alg() -> Seq<u8> {
    seq![123u8, 34u8, 97u8, 108u8, 103u8, 34u8, 58u8, 34u8]
}

/// `","kid":"`
pub open spec fn lit_kid() -> Seq<u8> {
    seq![34u8, 44u8, 34u8, 107u8, 105u8, 100u8, 34u8, 58u8, 34u8]
}

/// The bytes of `ES256`.
pub open spec fn es256_bytes() -> Seq<u8> {
    seq![69u8, 83u8, 50u8, 53u8, 54u8]
}

/// Canonical claims object: `{"iss":"<iss>","iat":<iat>,"exp":<exp>}`.
pub open spec fn claims_json_bytes(iss: Seq<u8>, iat: u64, exp: u64) -> Seq<u8> {
    lit_iss() + jstr(iss) + lit_iat() + dec_digits(iat as nat) + lit_exp() + dec_digits(
        exp as nat,
    ) + seq![125u8]
}

/// Canonical header object: `{"alg":"<alg>","kid":"<kid>"}`.
pub open spec fn header_json_bytes(alg: Seq<u8>, kid: Seq<u8>) -> Seq<u8> {
    lit_alg() + jstr(alg) + lit_kid() + jstr(kid) + seq![34u8, 125u8]
}

/// String encoding distributes over concatenation.
pub proof fn lemma_jstr_concat(a: Seq<u8>, b: Seq<u8>)
    ensures
        jstr(a + b) == jstr(a) + jstr(b),
    decreases a.len(),
{
    if a.len() == 0 {
        assert(a + b =~= b);
        assert(jstr(a) + jstr(b) =~= jstr(b));
    } else {
        assert((a + b).skip(1) =~= a.skip(1) + b);
        lemma_jstr_concat(a.skip(1), b);
        assert((a + b)[0] == a[0]);
        assert(jstr(a + b) == esc_byte(a[0]) + (jstr(a.skip(1)) + jstr(b)));
        assert(esc_byte(a[0]) + (jstr(a.skip(1)) + jstr(b)) =~= (esc_byte(a[0]) + jstr(a.skip(1)))
            + jstr(b));
    }
}

/// Adding one byte to the content appends its escape to the encoding.
pub proof fn lemma_jstr_snoc(s: Seq<u8>, x: u8)
    ensures
        jstr(s + seq![x]) == jstr(s) + esc_byte(x),
{
    lemma_jstr_concat(s, seq![x]);
    assert(seq![x].skip(1) =~= Seq::<u8>::empty());
    assert(seq![x][0] == x);
    assert(jstr(seq![x]) == esc_byte(x) + jstr(seq![x].skip(1)));
    assert(esc_byte(x) + Seq::<u8>::empty() =~= esc_byte(x));
    assert(jstr(s) + jstr(seq![x]) =~= jstr(s) + esc_byte(x));
}

/// Writes the escape of one content byte.
fn push_esc(out: &mut Vec<u8>, x: u8)
    ensures
        final(out)@ == old(out)@ + esc_byte(x),
{
    if x == 34 {
        out.push(92);
        out.push(34);
        proof {
            assert(out@ =~= old(out)@ + esc_byte(x));
        }
    } else if x == 92 {
        out.push(92);
        out.push(92);
        proof {
            assert(out@ =~= old(out)@ + esc_byte(x));
        }
    } else if x < 32 {
        out.push(92);
        out.push(117);
        out.push(48);
        out.push(48);
        let hi = x >> 4;
        let lo = x & 15;
        proof {
            assert(x >> 4 < 16 && x & 15 < 16) by (bit_vector);
        }
        if hi < 10 {
            out.push(48 + hi);
        } else {
            out.push(87 + hi);
        }
        if lo < 10 {
            out.push(48 + lo);
        } else {
            out.push(87 + lo);
        }
        proof {
            assert(out@ =~= old(out)@ + esc_byte(x));
        }
    } else {
        out.push(x);
        proof {
            assert(out@ =~= old(out)@ + esc_byte(x));
        }
    }
}

/// Writes the JSON encoding of string content.
fn write_jstr(out: &mut Vec<u8>, s: &[u8])
    ensures
        final(out)@ == old(out)@ + jstr(s@),
{
    let n = s.len();
    let mut i: usize = 0;
    proof {
        assert(s@.take(0) =~= Seq::<u8>::empty());
        assert(out@ =~= old(out)@ + jstr(s@.take(0)));
    }
    while i < n
        invariant
            i <= n,
            n == s@.len(),
            out@ == old(out)@ + jstr(s@.take(i as int)),
        decreases n - i,
    {
        push_esc(out, s[i]);
        proof {
            assert(s@.take(i as int) + seq![s@[i as int]] =~= s@.take(i as int + 1));
            lemma_jstr_snoc(s@.take(i as int), s@[i as int]);
            assert((old(out)@ + jstr(s@.take(i as int))) + esc_byte(s@[i as int]) =~= old(out)@
                + jstr(s@.take(i as int + 1)));
        }
        i += 1;
    }
    proof {
        assert(s@.take(n as int) =~= s@);
    }
}

/// Writes a number in shortest decimal form.
fn write_dec(out: &mut Vec<u8>, n: u64)
    ensures
        final(out)@ == old(out)@ + dec_digits(n as nat),
    decreases n,
{
    if n < 10 {
        out.push(48 + n as u8);
        proof {
            assert(out@ =~= old(out)@ + dec_digits(n as nat));
        }
    } else {
        write_dec(out, n / 10);
        out.push(48 + (n % 10) as u8);
        proof {
            assert(out@ =~= old(out)@ + dec_digits(n as nat));
        }
    }
}

/// Serializes the claims object canonically.
pub fn claims_to_json(iss: &[u8], iat: u64, exp: u64) -> (r: Vec<u8>)
    ensures
        r@ == claims_json_bytes(iss@, iat, exp),
{
    let mut out: Vec<u8> = Vec::new();
    out.push(123);
    out.push(34);
    out.push(105);
    out.push(115);
    out.push(115);
    out.push(34);
    out.push(58);
    out.push(34);
    proof {
        assert(out@ =~= lit_iss());
    }
    write_jstr(&mut out, iss);
    out.push(34);
    out.push(44);
    out.push(34);
    out.push(105);
    out.push(97);
    out.push(116);
    out.push(34);
    out.push(58);
    proof {
        assert(out@ =~= lit_iss() + jstr(iss@) + lit_iat());
    }
    write_dec(&mut out, iat);
    out.push(44);
    out.push(34);
    out.push(101);
    out.push(120);
    out.push(112);
    out.push(34);
    out.push(58);
    proof {
        assert(out@ =~= lit_iss() + jstr(iss@) + lit_iat() + dec_digits(iat as nat) + lit_exp());
    }
    write_dec(&mut out, exp);
    out.push(125);
    proof {
        assert(out@ =~= claims_json_bytes(iss@, iat, exp));
    }
    out
}

/// Serializes the header object canonically, with algorithm `ES256`.
pub fn header_to_json(kid: &[u8]) -> (r: Vec<u8>)
    ensures
        r@ == header_json_bytes(es256_bytes(), kid@),
{
    let mut out: Vec<u8> = Vec::new();
    out.push(123);
    out.push(34);
    out.push(97);
    out.push(108);
    out.push(103);
    out.push(34);
    out.push(58);
    out.push(34);
    out.push(69);
    out.push(83);
    out.push(50);
    out.push(53);
    out.push(54);
    proof {
        reveal_with_fuel(jstr, 7);
        assert(es256_bytes().skip(1).skip(1).skip(1).skip(1).skip(1) =~= Seq::<u8>::empty());
        assert(es256_bytes().skip(1).skip(1).skip(1).skip(1) =~= seq![54u8]);
        assert(jstr(es256_bytes()) =~= es256_bytes());
        assert(out@ =~= lit_alg() + jstr(es256_bytes()));
    }
    out.push(34);
    out.push(44);
    out.push(34);
    out.push(107);
    out.push(105);
    out.push(100);
    out.push(34);
    out.push(58);
    out.push(34);
    proof {
        assert(out@ =~= lit_alg() + jstr(es256_bytes()) + lit_kid());
    }
    write_jstr(&mut out, kid);
    out.push(34);
    out.push(125);
    proof {
        assert(out@ =~= header_json_bytes(es256_bytes(), kid@));
    }
    out
}


/// A JSON string with content `s` stands at `start`; `j` is past its
/// closing quote.
pub open spec fn jstr_at(b: Seq<u8>, start: int, s: Seq<u8>, j: int) -> bool {
    0 <= start <= j <= b.len() && b.subrange(start, j) == jstr(s) + seq![34u8]
}

/// A canonical number `n` stands at `start` and ends at `j`, at the end of
/// the digit run.
pub open spec fn num_at(b: Seq<u8>, start: int, n: u64, j: int) -> bool {
    0 <= start <= j <= b.len() && b.subrange(start, j) == dec_digits(n as nat) && (j == b.len()
        || !is_digit(b[j]))
}

/// Shape of a shortest decimal form: nonempty, digits only, no leading
/// zero, and its value is the number itself.
pub proof fn lemma_dec_digits_shape(n: nat)
    ensures
        dec_digits(n).len() >= 1,
        forall|i: int| 0 <= i < dec_digits(n).len() ==> is_digit(#[trigger] dec_digits(n)[i]),
        dec_digits(n)[0] != 48 || dec_digits(n).len() == 1,
        dec_val(dec_digits(n)) == n,
    decreases n,
{
    if n < 10 {
        assert(dec_digits(n) =~= seq![(48 + n) as u8]);
        assert(dec_val(dec_digits(n)) == dec_val(dec_digits(n).take(0)) * 10 + ((48 + n) - 48));
        assert(dec_digits(n).take(0) =~= Seq::<u8>::empty());
    } else {
        lemma_dec_digits_shape(n / 10);
        vstd::arithmetic::div_mod::lemma_fundamental_div_mod(n as int, 10);
        let p = dec_digits(n / 10);
        let d = (48 + n % 10) as u8;
        assert(dec_digits(n) == p + seq![d]);
        assert((p + seq![d]).take(p.len() as int) =~= p);
        assert((p + seq![d]).last() == d);
        assert(dec_val(dec_digits(n)) == dec_val(p) * 10 + (d - 48));
        assert(n / 10 >= 1);
        if p.len() == 1 {
            reveal_with_fuel(dec_val, 3);
            assert(p.take(0) =~= Seq::<u8>::empty());
            assert(p.last() == p[0]);
            assert(dec_val(p) == p[0] - 48);
            assert(p[0] != 48);
        }
        assert(dec_digits(n)[0] == p[0]);
    }
}

/// Digit-string values are not negative.
pub proof fn lemma_dec_val_nonneg(s: Seq<u8>)
    requires
        forall|i: int| 0 <= i < s.len() ==> is_digit(#[trigger] s[i]),
    ensures
        dec_val(s) >= 0,
    decreases s.len(),
{
    if s.len() > 0 {
        assert(is_digit(s[s.len() - 1]));
        lemma_dec_val_nonneg(s.take(s.len() - 1));
        assert(dec_val(s.take(s.len() - 1)) * 10 >= 0);
    }
}

/// A digit string not starting with zero has a positive value.
pub proof fn lemma_dec_val_pos(s: Seq<u8>)
    requires
        s.len() >= 1,
        forall|i: int| 0 <= i < s.len() ==> is_digit(#[trigger] s[i]),
        s[0] != 48,
    ensures
        dec_val(s) >= 1,
    decreases s.len(),
{
    if s.len() == 1 {
        reveal_with_fuel(dec_val, 2);
        assert(s.take(0) =~= Seq::<u8>::empty());
        assert(is_digit(s[0]) && s.last() == s[0]);
    } else {
        assert(is_digit(s[s.len() - 1]));
        lemma_dec_val_pos(s.take(s.len() - 1));
        lemma_dec_val_nonneg(s.take(s.len() - 1));
    }
}

/// A prefix of a digit string never exceeds the whole string's value.
pub proof fn lemma_dec_val_prefix(s: Seq<u8>, k: int)
    requires
        0 <= k <= s.len(),
        forall|i: int| 0 <= i < s.len() ==> is_digit(#[trigger] s[i]),
    ensures
        dec_val(s.take(k)) <= dec_val(s),
    decreases s.len(),
{
    if k == s.len() {
        assert(s.take(k) =~= s);
    } else {
        let p = s.take(s.len() - 1);
        assert(p.take(k) =~= s.take(k));
        lemma_dec_val_prefix(p, k);
        lemma_dec_val_nonneg(p);
    }
}

/// A digit string in canonical form is the shortest decimal of its value.
pub proof fn lemma_dec_digits_of_val(s: Seq<u8>)
    requires
        s.len() >= 1,
        forall|i: int| 0 <= i < s.len() ==> is_digit(#[trigger] s[i]),
        s[0] != 48 || s.len() == 1,
        dec_val(s) <= u64::MAX,
    ensures
        dec_digits(dec_val(s) as nat) == s,
    decreases s.len(),
{
    if s.len() == 1 {
        reveal_with_fuel(dec_val, 2);
        assert(s.take(0) =~= Seq::<u8>::empty());
        assert(s.last() == s[0]);
        assert(dec_val(s) == s[0] - 48);
        assert(dec_digits(dec_val(s) as nat) =~= s);
    } else {
        let p = s.take(s.len() - 1);
        let d = (s.last() - 48) as int;
        lemma_dec_val_nonneg(p);
        lemma_dec_val_pos(p);
        let v = dec_val(s);
        assert(v == dec_val(p) * 10 + d);
        assert(dec_val(p) <= dec_val(p) * 10);
        lemma_dec_digits_of_val(p);
        vstd::arithmetic::div_mod::lemma_fundamental_div_mod_converse(v, 10, dec_val(p), d);
        assert(v >= 10);
        assert(dec_digits(v as nat) == dec_digits((v / 10) as nat) + seq![(48 + v % 10) as u8]);
        assert(dec_digits(v as nat) =~= s);
    }
}

/// At one position, at most one canonical number can stand.
pub proof fn lemma_num_at_unique(b: Seq<u8>, start: int, n1: u64, j1: int, n2: u64, j2: int)
    requires
        num_at(b, start, n1, j1),
        num_at(b, start, n2, j2),
    ensures
        n1 == n2 && j1 == j2,
{
    lemma_dec_digits_shape(n1 as nat);
    lemma_dec_digits_shape(n2 as nat);
    if j1 < j2 {
        assert(b[j1] == b.subrange(start, j2)[j1 - start]);
        assert(is_digit(b[j1]));
    } else if j2 < j1 {
        assert(b[j2] == b.subrange(start, j1)[j2 - start]);
        assert(is_digit(b[j2]));
    }
    assert(j1 == j2);
    assert(dec_digits(n1 as nat) == dec_digits(n2 as nat));
}

/// Shape of an escape group: never starts with a quote; starts with a
/// backslash exactly for the escaped bytes; its second byte tells the
/// three escape forms apart.
proof fn lemma_esc_first(x: u8)
    ensures
        esc_byte(x).len() >= 1,
        esc_byte(x)[0] != 34,
        (esc_byte(x)[0] == 92) <==> (x == 34 || x == 92 || x < 32),
        (x == 34 || x == 92) ==> esc_byte(x) == seq![92u8, x],
        x < 32 ==> esc_byte(x) == seq![
            92u8,
            117u8,
            48u8,
            48u8,
            hex_digit(x >> 4),
            hex_digit(x & 15),
        ],
        !(x == 34 || x == 92 || x < 32) ==> esc_byte(x) == seq![x],
        hex_digit(x >> 4) != 117 && hex_digit(x & 15) != 117,
{
    assert(x >> 4 < 16 && x & 15 < 16) by (bit_vector);
}

/// Two 4-bit values with the same hex digit are the same value.
proof fn lemma_hex_inj(a: u8, b: u8)
    requires
        a < 16,
        b < 16,
        hex_digit(a) == hex_digit(b),
    ensures
        a == b,
{
}

/// Where a scanned prefix of content is known, the next input byte is
/// either the closing quote (content complete) or the start of the escape
/// group of the next content byte.
proof fn lemma_scan_step(b: Seq<u8>, start: int, i: int, content: Seq<u8>, s: Seq<u8>, j: int)
    requires
        0 <= start <= i <= b.len(),
        b.subrange(start, i) == jstr(content),
        jstr_at(b, start, s, j),
        s.len() >= content.len(),
        s.take(content.len() as int) == content,
    ensures
        s.len() == content.len() ==> i < b.len() && j == i + 1 && b[i] == 34,
        s.len() > content.len() ==> i + esc_byte(s[content.len() as int]).len() < j
            && b.subrange(i, i + esc_byte(s[content.len() as int]).len()) == esc_byte(
            s[content.len() as int],
        ),
{
    let cl = content.len() as int;
    if s.len() == content.len() {
        assert(s =~= content);
        assert((jstr(s) + seq![34u8]).len() == jstr(s).len() + 1);
        assert(j - start == jstr(s).len() + 1);
        assert(jstr(s) == jstr(content));
        assert(b[i] == b.subrange(start, j)[i - start]);
        assert(b.subrange(start, j)[i - start] == (jstr(s) + seq![34u8])[jstr(s).len() as int]);
    } else {
        let x = s[cl];
        lemma_esc_first(x);
        let g = esc_byte(x);
        assert(s =~= content + seq![x] + s.skip(cl + 1));
        lemma_jstr_concat(content + seq![x], s.skip(cl + 1));
        lemma_jstr_snoc(content, x);
        assert(jstr(s) == (jstr(content) + g) + jstr(s.skip(cl + 1)));
        assert(jstr(s).len() == (i - start) + g.len() + jstr(s.skip(cl + 1)).len());
        assert((jstr(s) + seq![34u8]).len() == jstr(s).len() + 1);
        assert(j == start + jstr(s).len() + 1);
        assert(i + g.len() < j);
        assert forall|t: int| 0 <= t < g.len() implies b[i + t] == g[t] by {
            assert(b[i + t] == b.subrange(start, j)[i - start + t]);
            assert((jstr(s) + seq![34u8])[i - start + t] == jstr(s)[i - start + t]);
            assert(jstr(s)[i - start + t] == g[t]);
        }
        assert(b.subrange(i, i + g.len()) =~= g);
    }
}

/// At one position, at most one JSON string can stand.
pub proof fn lemma_jstr_at_unique(b: Seq<u8>, start: int, s1: Seq<u8>, j1: int, s2: Seq<u8>, j2: int)
    requires
        jstr_at(b, start, s1, j1),
        jstr_at(b, start, s2, j2),
    ensures
        s1 == s2 && j1 == j2,
    decreases s1.len(),
{
    assert((jstr(s1) + seq![34u8]).len() == jstr(s1).len() + 1);
    assert((jstr(s2) + seq![34u8]).len() == jstr(s2).len() + 1);
    assert(j1 - start == jstr(s1).len() + 1);
    assert(j2 - start == jstr(s2).len() + 1);
    if s1.len() == 0 {
        assert(jstr(s1) =~= Seq::<u8>::empty());
        assert(b[start] == b.subrange(start, j1)[0]);
        assert(b[start] == 34);
        if s2.len() > 0 {
            lemma_esc_first(s2[0]);
            assert(jstr(s2) == esc_byte(s2[0]) + jstr(s2.skip(1)));
            assert(jstr(s2).len() >= 1);
            assert(b[start] == b.subrange(start, j2)[0]);
            assert((jstr(s2) + seq![34u8])[0] == esc_byte(s2[0])[0]);
            assert(false);
        }
        assert(s1 =~= s2);
    } else {
        lemma_esc_first(s1[0]);
        assert(jstr(s1) == esc_byte(s1[0]) + jstr(s1.skip(1)));
        assert(jstr(s1).len() >= 1);
        assert(b[start] == b.subrange(start, j1)[0]);
        assert((jstr(s1) + seq![34u8])[0] == esc_byte(s1[0])[0]);
        if s2.len() == 0 {
            assert(jstr(s2) =~= Seq::<u8>::empty());
            assert(b[start] == b.subrange(start, j2)[0]);
            assert(b[start] == 34);
            assert(false);
        }
        lemma_esc_first(s2[0]);
        assert(jstr(s2) == esc_byte(s2[0]) + jstr(s2.skip(1)));
        assert(jstr(s2).len() >= 1);
        assert(b[start] == b.subrange(start, j2)[0]);
        assert((jstr(s2) + seq![34u8])[0] == esc_byte(s2[0])[0]);
        // the two first escape groups agree
        let a = s1[0];
        let c = s2[0];
        let g1 = esc_byte(a);
        let g2 = esc_byte(c);
        assert(jstr(s1).len() >= g1.len() && jstr(s2).len() >= g2.len());
        assert forall|t: int| 0 <= t < g1.len() implies b[start + t] == g1[t] by {
            assert(b[start + t] == b.subrange(start, j1)[t]);
            assert((jstr(s1) + seq![34u8])[t] == jstr(s1)[t]);
            assert(jstr(s1)[t] == g1[t]);
        }
        assert forall|t: int| 0 <= t < g2.len() implies b[start + t] == g2[t] by {
            assert(b[start + t] == b.subrange(start, j2)[t]);
            assert((jstr(s2) + seq![34u8])[t] == jstr(s2)[t]);
            assert(jstr(s2)[t] == g2[t]);
        }
        if g1[0] == 92 {
            assert(a == 34 || a == 92 || a < 32);
            assert(c == 34 || c == 92 || c < 32);
            assert(g1[1] == g2[1]);
            if a < 32 {
                assert(g1[1] == 117);
                if c == 34 || c == 92 {
                    assert(g2[1] == c);
                    assert(false);
                }
                assert(c < 32);
                assert(g1.len() == 6 && g2.len() == 6);
                assert(g1[4] == g2[4] && g1[5] == g2[5]);
                assert(a >> 4 < 16 && a & 15 < 16 && c >> 4 < 16 && c & 15 < 16) by (bit_vector);
                lemma_hex_inj(a >> 4, c >> 4);
                lemma_hex_inj(a & 15, c & 15);
                assert(a == c) by (bit_vector)
                    requires
                        a >> 4 == c >> 4 && a & 15 == c & 15,
                ;
            } else {
                assert(g1[1] == a);
                if c < 32 {
                    assert(g2[1] == 117);
                    assert(false);
                }
                assert(g2[1] == c);
                assert(a == c);
            }
        } else {
            assert(g1 == seq![a] && g2 == seq![c]);
            assert(a == c);
        }
        // peel the group off and recurse
        let g = g1;
        assert(g2 =~= g);
        assert(jstr_at(b, start + g.len(), s1.skip(1), j1)) by {
            assert(b.subrange(start + g.len(), j1) =~= (jstr(s1) + seq![34u8]).skip(g.len() as int));
            assert((jstr(s1) + seq![34u8]).skip(g.len() as int) =~= jstr(s1.skip(1)) + seq![34u8]);
        }
        assert(jstr_at(b, start + g.len(), s2.skip(1), j2)) by {
            assert(b.subrange(start + g.len(), j2) =~= (jstr(s2) + seq![34u8]).skip(g.len() as int));
            assert((jstr(s2) + seq![34u8]).skip(g.len() as int) =~= jstr(s2.skip(1)) + seq![34u8]);
        }
        lemma_jstr_at_unique(b, start + g.len(), s1.skip(1), j1, s2.skip(1), j2);
        assert(s1 =~= seq![a] + s1.skip(1));
        assert(s2 =~= seq![c] + s2.skip(1));
    }
}


/// Reads a canonical decimal number; `None` where none stands at `start`.
pub fn scan_number(b: &Vec<u8>, start: usize) -> (r: Option<(u64, usize)>)
    requires
        start <= b@.len(),
    ensures
        match r {
            Some(p) => num_at(b@, start as int, p.0, p.1 as int) && start < p.1 <= b@.len(),
            None => forall|n: u64, j: int| !num_at(b@, start as int, n, j),
        },
{
    let len = b.len();
    if start == len || !(48 <= b[start] && b[start] <= 57) {
        proof {
            assert forall|n: u64, j: int| !num_at(b@, start as int, n, j) by {
                if num_at(b@, start as int, n, j) {
                    lemma_dec_digits_shape(n as nat);
                    assert(b@.subrange(start as int, j).len() >= 1);
                    assert(b@[start as int] == b@.subrange(start as int, j)[0]);
                    assert(is_digit(b@[start as int]));
                }
            }
        }
        return None;
    }
    let d0 = b[start];
    if d0 == 48 {
        if start + 1 == len || !(48 <= b[start + 1] && b[start + 1] <= 57) {
            proof {
                assert(b@.subrange(start as int, start as int + 1) =~= dec_digits(0));
            }
            return Some((0, start + 1));
        }
        proof {
            assert forall|n: u64, j: int| !num_at(b@, start as int, n, j) by {
                if num_at(b@, start as int, n, j) {
                    lemma_dec_digits_shape(n as nat);
                    assert(b@[start as int] == b@.subrange(start as int, j)[0]);
                    assert(dec_digits(n as nat)[0] == 48);
                    assert(dec_digits(n as nat).len() == 1);
                    assert(dec_digits(n as nat) =~= seq![48u8]);
                    reveal_with_fuel(dec_val, 2);
                    assert(seq![48u8].take(0) =~= Seq::<u8>::empty());
                    assert(dec_val(seq![48u8]) == 0);
                    assert(n == 0);
                    assert(j == start + 1);
                    assert(is_digit(b@[j]));
                }
            }
        }
        return None;
    }
    let mut val: u64 = (d0 - 48) as u64;
    let mut i: usize = start + 1;
    proof {
        assert(b@.subrange(start as int, start as int + 1) =~= seq![d0]);
        reveal_with_fuel(dec_val, 2);
        assert(seq![d0].take(0) =~= Seq::<u8>::empty());
        assert(dec_val(b@.subrange(start as int, start as int + 1)) == d0 - 48);
    }
    while i < len && 48 <= b[i] && b[i] <= 57
        invariant
            start < i <= len,
            len == b@.len(),
            48 < b@[start as int] && b@[start as int] <= 57,
            forall|k: int| start <= k < i ==> is_digit(#[trigger] b@[k]),
            dec_val(b@.subrange(start as int, i as int)) == val,
        decreases len - i,
    {
        let d = b[i] - 48;
        if val > (u64::MAX - d as u64) / 10 {
            proof {
                assert forall|n: u64, j: int| !num_at(b@, start as int, n, j) by {
                    if num_at(b@, start as int, n, j) {
                        lemma_dec_digits_shape(n as nat);
                        let run = b@.subrange(start as int, j);
                        assert(run.len() >= 1);
                        assert forall|k: int| 0 <= k < run.len() implies is_digit(
                            #[trigger] run[k],
                        ) by {
                            assert(run[k] == dec_digits(n as nat)[k]);
                        }
                        if j <= i {
                            assert(is_digit(b@[j]));
                        }
                        assert(j >= i + 1);
                        let pre = b@.subrange(start as int, i as int + 1);
                        assert(pre =~= run.take(i + 1 - start as int));
                        assert(pre.take(pre.len() - 1) =~= b@.subrange(start as int, i as int));
                        assert(pre.last() == b@[i as int]);
                        assert(dec_val(pre) == val * 10 + d);
                        lemma_dec_val_prefix(run, i + 1 - start as int);
                        assert(dec_val(run) == n as int);
                        vstd::arithmetic::div_mod::lemma_fundamental_div_mod(
                            (u64::MAX - d as u64) as int,
                            10,
                        );
                        assert(val * 10 + d > u64::MAX);
                        assert(false);
                    }
                }
            }
            return None;
        }
        val = val * 10 + d as u64;
        i += 1;
        proof {
            let sub1 = b@.subrange(start as int, i as int);
            assert(sub1.take(sub1.len() - 1) =~= b@.subrange(start as int, i as int - 1));
            assert(sub1.last() == b@[i as int - 1]);
        }
    }
    proof {
        let s = b@.subrange(start as int, i as int);
        assert forall|k: int| 0 <= k < s.len() implies is_digit(#[trigger] s[k]) by {
            assert(s[k] == b@[start as int + k]);
        }
        assert(s[0] == b@[start as int]);
        lemma_dec_digits_of_val(s);
        assert(num_at(b@, start as int, val, i as int));
    }
    Some((val, i))
}

/// Reads one lower-case hex digit.
fn hex_val(c: u8) -> (r: Option<u8>)
    ensures
        match r {
            Some(v) => v < 16 && hex_digit(v) == c,
            None => forall|v: u8| v < 16 ==> hex_digit(v) != c,
        },
{
    if 48 <= c && c <= 57 {
        Some(c - 48)
    } else if 97 <= c && c <= 102 {
        Some(c - 87)
    } else {
        None
    }
}

/// Reads a JSON string body through its closing quote; `None` where none
/// stands at `start`.
pub fn scan_jstr(b: &Vec<u8>, start: usize) -> (r: Option<(Vec<u8>, usize)>)
    requires
        start <= b@.len(),
    ensures
        match r {
            Some(p) => jstr_at(b@, start as int, p.0@, p.1 as int) && start < p.1 <= b@.len(),
            None => forall|s: Seq<u8>, j: int| !jstr_at(b@, start as int, s, j),
        },
{
    let len = b.len();
    let mut content: Vec<u8> = Vec::new();
    let mut i: usize = start;
    proof {
        assert(b@.subrange(start as int, start as int) =~= jstr(content@));
    }
    loop
        invariant
            start <= i <= len,
            len == b@.len(),
            b@.subrange(start as int, i as int) == jstr(content@),
            forall|s: Seq<u8>, j: int|
                jstr_at(b@, start as int, s, j) ==> s.len() >= content@.len() && s.take(
                    content@.len() as int,
                ) == content@,
        decreases len - i,
    {
        if i == len {
            proof {
                assert forall|s: Seq<u8>, j: int| !jstr_at(b@, start as int, s, j) by {
                    if jstr_at(b@, start as int, s, j) {
                        lemma_scan_step(b@, start as int, i as int, content@, s, j);
                        if s.len() > content@.len() {
                            assert(i + esc_byte(s[content@.len() as int]).len() < j);
                        }
                    }
                }
            }
            return None;
        }
        let c = b[i];
        if c == 34 {
            proof {
                assert(b@.subrange(start as int, i as int + 1) =~= jstr(content@) + seq![34u8]);
            }
            return Some((content, i + 1));
        }
        if c == 92 {
            if i + 1 == len {
                proof {
                    assert forall|s: Seq<u8>, j: int| !jstr_at(b@, start as int, s, j) by {
                        if jstr_at(b@, start as int, s, j) {
                            lemma_scan_step(b@, start as int, i as int, content@, s, j);
                            if s.len() > content@.len() {
                                let x = s[content@.len() as int];
                                assert(b@[i as int] == esc_byte(x)[0]);
                                lemma_esc_first(x);
                                assert(x == 34 || x == 92 || x < 32);
                                assert(esc_byte(x).len() >= 2);
                                assert(i + esc_byte(x).len() < j);
                            }
                        }
                    }
                }
                return None;
            }
            let x = b[i + 1];
            if x == 34 || x == 92 {
                let ghost content0 = content@;
                content.push(x);
                proof {
                    lemma_jstr_snoc(content0, x);
                    assert(content@ == content0 + seq![x]);
                    assert(b@.subrange(start as int, i as int + 2) =~= jstr(content0) + seq![
                        92u8,
                        x,
                    ]);
                    assert(esc_byte(x) =~= seq![92u8, x]);
                    assert(b@.subrange(start as int, i as int + 2) == jstr(content@));
                    assert forall|s: Seq<u8>, j: int|
                        jstr_at(b@, start as int, s, j) implies s.len() >= content@.len()
                        && s.take(content@.len() as int) == content@ by {
                        lemma_scan_step(b@, start as int, i as int, content0, s, j);
                        if s.len() == content0.len() {
                            assert(b@[i as int] == 34);
                            assert(false);
                        }
                        let y = s[content0.len() as int];
                        lemma_esc_first(y);
                        assert(b@[i as int] == esc_byte(y)[0]);
                        assert(y == 34 || y == 92 || y < 32);
                        assert(b@[i as int + 1] == esc_byte(y)[1]);
                        if y < 32 {
                            assert(esc_byte(y)[1] == 117);
                            assert(false);
                        }
                        assert(y == x);
                        assert(s.take(content@.len() as int) =~= content0 + seq![x]);
                    }
                }
                i += 2;
            } else if x == 117 {
                if len - i < 6 || !(b[i + 2] == 48 && b[i + 3] == 48) {
                    proof {
                        assert forall|s: Seq<u8>, j: int| !jstr_at(b@, start as int, s, j) by {
                            if jstr_at(b@, start as int, s, j) {
                                lemma_scan_step(b@, start as int, i as int, content@, s, j);
                                if s.len() > content@.len() {
                                    let y = s[content@.len() as int];
                                    lemma_esc_first(y);
                                    assert(b@[i as int] == esc_byte(y)[0]);
                                    assert(y == 34 || y == 92 || y < 32);
                                    assert(b@[i as int + 1] == esc_byte(y)[1]);
                                    if y == 34 || y == 92 {
                                        assert(esc_byte(y)[1] == y);
                                        assert(false);
                                    }
                                    assert(esc_byte(y).len() == 6);
                                    assert(i + 6 < j);
                                    assert(b@[i as int + 2] == esc_byte(y)[2]);
                                    assert(b@[i as int + 3] == esc_byte(y)[3]);
                                }
                            }
                        }
                    }
                    return None;
                }
                let oh = hex_val(b[i + 4]);
                let ol = hex_val(b[i + 5]);
                let (hi, lo) = match (oh, ol) {
                    (Some(hv), Some(lv)) => (hv, lv),
                    _ => {
                        proof {
                            assert forall|s: Seq<u8>, j: int| !jstr_at(b@, start as int, s, j) by {
                                if jstr_at(b@, start as int, s, j) {
                                    lemma_scan_step(b@, start as int, i as int, content@, s, j);
                                    if s.len() > content@.len() {
                                        let y = s[content@.len() as int];
                                        lemma_esc_first(y);
                                        assert(b@[i as int] == esc_byte(y)[0]);
                                        assert(y == 34 || y == 92 || y < 32);
                                        assert(b@[i as int + 1] == esc_byte(y)[1]);
                                        if y == 34 || y == 92 {
                                            assert(esc_byte(y)[1] == y);
                                            assert(false);
                                        }
                                        assert(b@[i as int + 4] == esc_byte(y)[4]);
                                        assert(b@[i as int + 5] == esc_byte(y)[5]);
                                        assert(y >> 4 < 16 && y & 15 < 16) by (bit_vector);
                                        assert(false);
                                    }
                                }
                            }
                        }
                        return None;
                    },
                };
                if hi >= 2 {
                    proof {
                        assert forall|s: Seq<u8>, j: int| !jstr_at(b@, start as int, s, j) by {
                            if jstr_at(b@, start as int, s, j) {
                                lemma_scan_step(b@, start as int, i as int, content@, s, j);
                                if s.len() > content@.len() {
                                    let y = s[content@.len() as int];
                                    lemma_esc_first(y);
                                    assert(b@[i as int] == esc_byte(y)[0]);
                                    assert(y == 34 || y == 92 || y < 32);
                                    assert(b@[i as int + 1] == esc_byte(y)[1]);
                                    if y == 34 || y == 92 {
                                        assert(esc_byte(y)[1] == y);
                                        assert(false);
                                    }
                                    assert(b@[i as int + 4] == esc_byte(y)[4]);
                                    assert(y >> 4 < 2 && y & 15 < 16) by (bit_vector)
                                        requires
                                            y < 32,
                                    ;
                                    lemma_hex_inj(y >> 4, hi);
                                    assert(false);
                                }
                            }
                        }
                    }
                    return None;
                }
                let v = (hi << 4) | lo;
                let ghost content0 = content@;
                content.push(v);
                proof {
                    assert(v < 32 && v >> 4 == hi && v & 15 == lo) by (bit_vector)
                        requires
                            hi < 2 && lo < 16 && v == (hi << 4) | lo,
                    ;
                    lemma_esc_first(v);
                    assert(esc_byte(v) =~= seq![
                        92u8,
                        117u8,
                        48u8,
                        48u8,
                        b@[i as int + 4],
                        b@[i as int + 5],
                    ]);
                    lemma_jstr_snoc(content0, v);
                    assert(content@ == content0 + seq![v]);
                    assert(b@.subrange(start as int, i as int + 6) =~= jstr(content0) + esc_byte(
                        v,
                    ));
                    assert(b@.subrange(start as int, i as int + 6) == jstr(content@));
                    assert forall|s: Seq<u8>, j: int|
                        jstr_at(b@, start as int, s, j) implies s.len() >= content@.len()
                        && s.take(content@.len() as int) == content@ by {
                        lemma_scan_step(b@, start as int, i as int, content0, s, j);
                        if s.len() == content0.len() {
                            assert(b@[i as int] == 34);
                            assert(false);
                        }
                        let y = s[content0.len() as int];
                        lemma_esc_first(y);
                        assert(b@[i as int] == esc_byte(y)[0]);
                        assert(y == 34 || y == 92 || y < 32);
                        assert(b@[i as int + 1] == esc_byte(y)[1]);
                        if y == 34 || y == 92 {
                            assert(esc_byte(y)[1] == y);
                            assert(false);
                        }
                        assert(b@[i as int + 4] == esc_byte(y)[4]);
                        assert(b@[i as int + 5] == esc_byte(y)[5]);
                        assert(y >> 4 < 16 && y & 15 < 16) by (bit_vector);
                        lemma_hex_inj(y >> 4, hi);
                        lemma_hex_inj(y & 15, lo);
                        assert(y == v) by (bit_vector)
                            requires
                                y >> 4 == hi && y & 15 == lo && v == (hi << 4) | lo,
                        ;
                        assert(s.take(content@.len() as int) =~= content0 + seq![v]);
                    }
                }
                i += 6;
            } else {
                proof {
                    assert forall|s: Seq<u8>, j: int| !jstr_at(b@, start as int, s, j) by {
                        if jstr_at(b@, start as int, s, j) {
                            lemma_scan_step(b@, start as int, i as int, content@, s, j);
                            if s.len() > content@.len() {
                                let y = s[content@.len() as int];
                                lemma_esc_first(y);
                                assert(b@[i as int] == esc_byte(y)[0]);
                                assert(y == 34 || y == 92 || y < 32);
                                assert(b@[i as int + 1] == esc_byte(y)[1]);
                                if y < 32 {
                                    assert(esc_byte(y)[1] == 117);
                                    assert(false);
                                }
                                assert(esc_byte(y)[1] == y);
                            }
                        }
                    }
                }
                return None;
            }
        } else if c < 32 {
            proof {
                assert forall|s: Seq<u8>, j: int| !jstr_at(b@, start as int, s, j) by {
                    if jstr_at(b@, start as int, s, j) {
                        lemma_scan_step(b@, start as int, i as int, content@, s, j);
                        if s.len() > content@.len() {
                            let y = s[content@.len() as int];
                            lemma_esc_first(y);
                            assert(b@[i as int] == esc_byte(y)[0]);
                        }
                    }
                }
            }
            return None;
        } else {
            let ghost content0 = content@;
            content.push(c);
            proof {
                lemma_jstr_snoc(content0, c);
                assert(content@ == content0 + seq![c]);
                assert(esc_byte(c) =~= seq![c]);
                assert(b@.subrange(start as int, i as int + 1) =~= jstr(content0) + seq![c]);
                assert(b@.subrange(start as int, i as int + 1) == jstr(content@));
                assert forall|s: Seq<u8>, j: int|
                    jstr_at(b@, start as int, s, j) implies s.len() >= content@.len() && s.take(
                    content@.len() as int,
                ) == content@ by {
                    lemma_scan_step(b@, start as int, i as int, content0, s, j);
                    if s.len() == content0.len() {
                        assert(b@[i as int] == 34);
                        assert(false);
                    }
                    let y = s[content0.len() as int];
                    lemma_esc_first(y);
                    assert(b@[i as int] == esc_byte(y)[0]);
                    assert(y == c);
                    assert(s.take(content@.len() as int) =~= content0 + seq![c]);
                }
            }
            i += 1;
        }
    }
}


/// One object member: key, whether the value is a string, the string
/// value, and the number value (the unused slot stays empty or zero).
pub type Member = (Seq<u8>, bool, Seq<u8>, u64);

/// The bytes of a member's value: a quoted string or a shortest-form
/// number.
pub open spec fn render_val(is_str: bool, sv: Seq<u8>, nv: u64) -> Seq<u8> {
    if is_str {
        seq![34u8] + jstr(sv) + seq![34u8]
    } else {
        dec_digits(nv as nat)
    }
}

/// The bytes of one member: quoted key, colon, value.
pub open spec fn render_member(m: Member) -> Seq<u8> {
    seq![34u8] + jstr(m.0) + seq![34u8, 58u8] + render_val(m.1, m.2, m.3)
}

/// The bytes of a member list, comma-separated.
pub open spec fn render_members(ms: Seq<Member>) -> Seq<u8>
    decreases ms.len(),
{
    if ms.len() == 0 {
        Seq::<u8>::empty()
    } else if ms.len() == 1 {
        render_member(ms[0])
    } else {
        render_member(ms[0]) + seq![44u8] + render_members(ms.skip(1))
    }
}

/// The bytes of a member list where every member is followed by a comma.
pub open spec fn render_cm(ms: Seq<Member>) -> Seq<u8>
    decreases ms.len(),
{
    if ms.len() == 0 {
        Seq::<u8>::empty()
    } else {
        render_member(ms[0]) + seq![44u8] + render_cm(ms.skip(1))
    }
}

/// The bytes of a whole object.
pub open spec fn obj_bytes(ms: Seq<Member>) -> Seq<u8> {
    seq![123u8] + render_members(ms) + seq![125u8]
}

/// The unused value slot of each member is defaulted.
pub open spec fn wf_members(ms: Seq<Member>) -> bool {
    forall|i: int|
        0 <= i < ms.len() ==> ((#[trigger] ms[i]).1 ==> ms[i].3 == 0) && (!ms[i].1 ==> ms[i].2
            == Seq::<u8>::empty())
}

/// The first member with the given key.
pub open spec fn find_member(ms: Seq<Member>, key: Seq<u8>) -> Option<(bool, Seq<u8>, u64)>
    decreases ms.len(),
{
    if ms.len() == 0 {
        None
    } else if ms[0].0 == key {
        Some((ms[0].1, ms[0].2, ms[0].3))
    } else {
        find_member(ms.skip(1), key)
    }
}

/// The member lists before and within a cursor position concatenate.
pub proof fn lemma_render_split(ms: Seq<Member>, k: int)
    requires
        0 <= k < ms.len(),
    ensures
        render_members(ms) == render_cm(ms.take(k)) + render_members(ms.skip(k)),
    decreases k,
{
    if k == 0 {
        assert(ms.take(0) =~= Seq::<Member>::empty());
        assert(ms.skip(0) =~= ms);
        assert(render_cm(ms.take(0)) + render_members(ms.skip(0)) =~= render_members(ms));
    } else {
        let tail = ms.skip(1);
        lemma_render_split(tail, k - 1);
        assert(tail.take(k - 1) =~= ms.take(k).skip(1));
        assert(tail.skip(k - 1) =~= ms.skip(k));
        assert(ms.take(k)[0] == ms[0]);
        assert(render_cm(ms.take(k)) == render_member(ms[0]) + seq![44u8] + render_cm(
            ms.take(k).skip(1),
        ));
        assert(ms.len() >= 2);
        assert(render_members(ms) == render_member(ms[0]) + seq![44u8] + render_members(tail));
        assert((render_member(ms[0]) + seq![44u8]) + (render_cm(tail.take(k - 1))
            + render_members(tail.skip(k - 1))) =~= ((render_member(ms[0]) + seq![44u8]
            + render_cm(ms.take(k).skip(1))) + render_members(ms.skip(k))));
    }
}

/// Appending a member to the comma-terminated prefix.
pub proof fn lemma_render_cm_snoc(ms: Seq<Member>, m: Member)
    ensures
        render_cm(ms + seq![m]) == render_cm(ms) + render_member(m) + seq![44u8],
    decreases ms.len(),
{
    if ms.len() == 0 {
        assert((ms + seq![m]).skip(1) =~= Seq::<Member>::empty());
        assert((ms + seq![m])[0] == m);
        assert(render_cm(Seq::<Member>::empty()) == Seq::<u8>::empty());
        assert(render_cm(ms) == Seq::<u8>::empty());
        assert(render_cm(ms + seq![m]) =~= render_cm(ms) + render_member(m) + seq![44u8]);
    } else {
        lemma_render_cm_snoc(ms.skip(1), m);
        assert((ms + seq![m]).skip(1) =~= ms.skip(1) + seq![m]);
        assert((ms + seq![m])[0] == ms[0]);
        assert(render_cm(ms + seq![m]) == render_member(ms[0]) + seq![44u8] + (render_cm(
            ms.skip(1),
        ) + render_member(m) + seq![44u8]));
        assert(render_member(ms[0]) + seq![44u8] + (render_cm(ms.skip(1)) + render_member(m)
            + seq![44u8]) =~= (render_member(ms[0]) + seq![44u8] + render_cm(ms.skip(1)))
            + render_member(m) + seq![44u8]);
    }
}

/// Closing a member list with one final member.
pub proof fn lemma_render_members_snoc(ms: Seq<Member>, m: Member)
    ensures
        render_members(ms + seq![m]) == render_cm(ms) + render_member(m),
    decreases ms.len(),
{
    if ms.len() == 0 {
        assert(ms + seq![m] =~= seq![m]);
        assert(render_members(seq![m]) == render_member(m));
        assert(render_cm(ms) + render_member(m) =~= render_member(m));
    } else {
        lemma_render_members_snoc(ms.skip(1), m);
        assert((ms + seq![m]).skip(1) =~= ms.skip(1) + seq![m]);
        assert((ms + seq![m])[0] == ms[0]);
        assert((ms + seq![m]).len() >= 2);
        assert(render_members(ms + seq![m]) == render_member(ms[0]) + seq![44u8] + (render_cm(
            ms.skip(1),
        ) + render_member(m)));
        assert(render_member(ms[0]) + seq![44u8] + (render_cm(ms.skip(1)) + render_member(m)) =~= (
        render_member(ms[0]) + seq![44u8] + render_cm(ms.skip(1))) + render_member(m));
    }
}

/// Positions of the parts of the first member of a member region that
/// fills the rest of the input up to a closing brace.
#[verifier::rlimit(100)]
pub proof fn lemma_member_first(b: Seq<u8>, i: int, suf: Seq<Member>)
    requires
        0 <= i <= b.len(),
        suf.len() >= 1,
        b.subrange(i, b.len() as int) == render_members(suf) + seq![125u8],
    ensures
        ({
            let m = suf[0];
            let jk = i + 1 + jstr(m.0).len() as int + 1;
            let vend = if m.1 {
                jk + 2 + jstr(m.2).len() as int + 1
            } else {
                jk + 1 + dec_digits(m.3 as nat).len() as int
            };
            b[i] == 34 && jstr_at(b, i + 1, m.0, jk) && b[jk] == 58 && (m.1 ==> b[jk + 1] == 34
                && jstr_at(b, jk + 2, m.2, vend)) && (!m.1 ==> num_at(b, jk + 1, m.3, vend)) && (
            suf.len() == 1 ==> vend + 1 == b.len() && b[vend] == 125) && (suf.len() > 1 ==> vend + 1
                < b.len() && b[vend] == 44 && b.subrange(vend + 1, b.len() as int) == render_members(
                suf.skip(1),
            ) + seq![125u8])
        }),
{
    let m = suf[0];
    let jk = i + 1 + jstr(m.0).len() as int + 1;
    let rv = render_val(m.1, m.2, m.3);
    let rm = render_member(m);
    assert(rm == seq![34u8] + jstr(m.0) + seq![34u8, 58u8] + rv);
    assert(rm.len() == 3 + jstr(m.0).len() + rv.len()) by {
        assert((seq![34u8] + jstr(m.0) + seq![34u8, 58u8] + rv).len() == 3 + jstr(m.0).len()
            + rv.len());
    }
    if m.1 {
        assert(rv == seq![34u8] + jstr(m.2) + seq![34u8]);
        assert(rv.len() == 2 + jstr(m.2).len()) by {
            assert((seq![34u8] + jstr(m.2) + seq![34u8]).len() == 2 + jstr(m.2).len());
        }
    } else {
        lemma_dec_digits_shape(m.3 as nat);
        assert(rv == dec_digits(m.3 as nat));
    }
    let vend = if m.1 {
        jk + 2 + jstr(m.2).len() as int + 1
    } else {
        jk + 1 + dec_digits(m.3 as nat).len() as int
    };
    let tail: Seq<u8> = if suf.len() == 1 {
        seq![125u8]
    } else {
        seq![44u8] + render_members(suf.skip(1)) + seq![125u8]
    };
    assert(b.subrange(i, b.len() as int) == rm + tail) by {
        if suf.len() == 1 {
            assert(render_members(suf) == rm);
            assert(render_members(suf) + seq![125u8] =~= rm + tail);
        } else {
            assert(render_members(suf) == rm + seq![44u8] + render_members(suf.skip(1)));
            assert(render_members(suf) + seq![125u8] =~= rm + tail);
        }
    }
    assert((rm + tail).len() == rm.len() + tail.len());
    assert(tail.len() >= 1);
    assert(b.len() - i == rm.len() + tail.len());
    assert forall|t: int| 0 <= t < rm.len() + tail.len() implies b[i + t] == (rm + tail)[t] by {
        assert(b[i + t] == b.subrange(i, b.len() as int)[t]);
    }
    assert(b[i + 0] == (rm + tail)[0]);
    assert(b[i] == 34);
    assert forall|t: int| 0 <= t < jk - (i + 1) implies b.subrange(i + 1, jk)[t] == (jstr(m.0)
        + seq![34u8])[t] by {
        assert(b[i + (1 + t)] == (rm + tail)[1 + t]);
        assert(b.subrange(i + 1, jk)[t] == b[i + 1 + t]);
        assert((rm + tail)[1 + t] == rm[1 + t]);
    }
    assert(b.subrange(i + 1, jk) =~= jstr(m.0) + seq![34u8]);
    assert(b[i + (jk - i)] == (rm + tail)[jk - i]);
    assert(b[jk] == 58);
    assert(vend - i == rm.len());
    if m.1 {
        assert(b[i + (jk + 1 - i)] == (rm + tail)[jk + 1 - i]);
        assert((rm + tail)[jk + 1 - i] == rm[jk + 1 - i]);
        assert(rm[jk + 1 - i] == rv[0]);
        assert(b[jk + 1] == 34);
        assert forall|t: int| 0 <= t < vend - (jk + 2) implies b.subrange(jk + 2, vend)[t] == (
        jstr(m.2) + seq![34u8])[t] by {
            assert(b[i + (jk + 2 + t - i)] == (rm + tail)[jk + 2 + t - i]);
            assert(b.subrange(jk + 2, vend)[t] == b[jk + 2 + t]);
            assert((rm + tail)[jk + 2 + t - i] == rm[jk + 2 + t - i]);
            assert(rm[jk + 2 + t - i] == rv[1 + t]);
            assert(rv[1 + t] == (jstr(m.2) + seq![34u8])[t]);
        }
        assert(b.subrange(jk + 2, vend) =~= jstr(m.2) + seq![34u8]);
    } else {
        assert forall|t: int| 0 <= t < vend - (jk + 1) implies b.subrange(jk + 1, vend)[t]
            == dec_digits(m.3 as nat)[t] by {
            assert(b[i + (jk + 1 + t - i)] == (rm + tail)[jk + 1 + t - i]);
            assert(b.subrange(jk + 1, vend)[t] == b[jk + 1 + t]);
            assert((rm + tail)[jk + 1 + t - i] == rm[jk + 1 + t - i]);
            assert(rm[jk + 1 + t - i] == rv[t]);
        }
        assert(b.subrange(jk + 1, vend) =~= dec_digits(m.3 as nat));
    }
    assert(b[i + rm.len()] == (rm + tail)[rm.len() as int]);
    assert(vend == i + rm.len());
    assert((rm + tail)[rm.len() as int] == tail[0]);
    if suf.len() == 1 {
        assert(b[vend] == 125);
        assert(vend + 1 == b.len());
    } else {
        assert(tail[0] == 44);
        assert(b[vend] == 44);
        assert forall|t: int| 0 <= t < b.len() - (vend + 1) implies b.subrange(
            vend + 1,
            b.len() as int,
        )[t] == (render_members(suf.skip(1)) + seq![125u8])[t] by {
            assert(b[i + (rm.len() + 1 + t)] == (rm + tail)[rm.len() + 1 + t]);
            assert(b.subrange(vend + 1, b.len() as int)[t] == b[vend + 1 + t]);
            assert((rm + tail)[rm.len() + 1 + t] == tail[1 + t]);
            assert(tail[1 + t] == (render_members(suf.skip(1)) + seq![125u8])[t]);
        }
        assert(b.subrange(vend + 1, b.len() as int) =~= render_members(suf.skip(1)) + seq![
            125u8,
        ]);
    }
}

/// A member region ending at the closing brace reads in one way only.
pub proof fn lemma_members_tail_unique(b: Seq<u8>, i: int, s1: Seq<Member>, s2: Seq<Member>)
    requires
        0 <= i <= b.len(),
        wf_members(s1),
        wf_members(s2),
        b.subrange(i, b.len() as int) == render_members(s1) + seq![125u8],
        b.subrange(i, b.len() as int) == render_members(s2) + seq![125u8],
    ensures
        s1 == s2,
    decreases s1.len(),
{
    if s1.len() == 0 {
        assert(b.subrange(i, b.len() as int) =~= seq![125u8]);
        assert(b[i] == b.subrange(i, b.len() as int)[0]);
        if s2.len() > 0 {
            lemma_member_first(b, i, s2);
            assert(false);
        }
        assert(s1 =~= s2);
    } else {
        if s2.len() == 0 {
            assert(b.subrange(i, b.len() as int) =~= seq![125u8]);
            assert(b[i] == b.subrange(i, b.len() as int)[0]);
            lemma_member_first(b, i, s1);
            assert(false);
        }
        lemma_member_first(b, i, s1);
        lemma_member_first(b, i, s2);
        let m1 = s1[0];
        let m2 = s2[0];
        let jk1 = i + 1 + jstr(m1.0).len() as int + 1;
        let jk2 = i + 1 + jstr(m2.0).len() as int + 1;
        lemma_jstr_at_unique(b, i + 1, m1.0, jk1, m2.0, jk2);
        if m1.1 != m2.1 {
            if m1.1 {
                lemma_dec_digits_shape(m2.3 as nat);
                assert(b[jk1 + 1] == 34);
                assert(b[jk2 + 1] == b.subrange(jk2 + 1, jk2 + 1 + dec_digits(
                    m2.3 as nat,
                ).len() as int)[0]);
                assert(is_digit(b[jk2 + 1]));
                assert(false);
            } else {
                lemma_dec_digits_shape(m1.3 as nat);
                assert(b[jk2 + 1] == 34);
                assert(b[jk1 + 1] == b.subrange(jk1 + 1, jk1 + 1 + dec_digits(
                    m1.3 as nat,
                ).len() as int)[0]);
                assert(is_digit(b[jk1 + 1]));
                assert(false);
            }
        }
        let vend1 = if m1.1 {
            jk1 + 2 + jstr(m1.2).len() as int + 1
        } else {
            jk1 + 1 + dec_digits(m1.3 as nat).len() as int
        };
        let vend2 = if m2.1 {
            jk2 + 2 + jstr(m2.2).len() as int + 1
        } else {
            jk2 + 1 + dec_digits(m2.3 as nat).len() as int
        };
        if m1.1 {
            lemma_jstr_at_unique(b, jk1 + 2, m1.2, vend1, m2.2, vend2);
            assert(m1.2 == m2.2 && vend1 == vend2);
            assert(m1.3 == 0 && m2.3 == 0);
        } else {
            lemma_num_at_unique(b, jk1 + 1, m1.3, vend1, m2.3, vend2);
            assert(m1.3 == m2.3 && vend1 == vend2);
            assert(m1.2 == Seq::<u8>::empty() && m2.2 == Seq::<u8>::empty());
        }
        assert(m1 == m2);
        if s1.len() == 1 && s2.len() > 1 {
            assert(b[vend1] == 125 && b[vend1] == 44);
            assert(false);
        }
        if s2.len() == 1 && s1.len() > 1 {
            assert(b[vend1] == 125 && b[vend1] == 44);
            assert(false);
        }
        if s1.len() == 1 {
            assert(s1 =~= seq![m1]);
            assert(s2 =~= seq![m2]);
        } else {
            assert(wf_members(s1.skip(1))) by {
                assert(forall|k: int|
                    0 <= k < s1.skip(1).len() ==> s1.skip(1)[k] == s1[k + 1]);
            }
            assert(wf_members(s2.skip(1))) by {
                assert(forall|k: int|
                    0 <= k < s2.skip(1).len() ==> s2.skip(1)[k] == s2[k + 1]);
            }
            lemma_members_tail_unique(b, vend1 + 1, s1.skip(1), s2.skip(1));
            assert(s1 =~= seq![m1] + s1.skip(1));
            assert(s2 =~= seq![m2] + s2.skip(1));
        }
    }
}

/// A byte sequence is at most one object.
pub proof fn lemma_obj_unique(b: Seq<u8>, ms1: Seq<Member>, ms2: Seq<Member>)
    requires
        wf_members(ms1),
        wf_members(ms2),
        b == obj_bytes(ms1),
        b == obj_bytes(ms2),
    ensures
        ms1 == ms2,
{
    assert(b.subrange(1, b.len() as int) =~= render_members(ms1) + seq![125u8]);
    assert(b.subrange(1, b.len() as int) =~= render_members(ms2) + seq![125u8]);
    lemma_members_tail_unique(b, 1, ms1, ms2);
}


/// Assembles a member's bytes from its scanned parts.
#[verifier::rlimit(100)]
proof fn lemma_member_assemble(b: Seq<u8>, i: int, m: Member, vend: int)
    requires
        0 <= i < b.len(),
        vend <= b.len(),
        b[i] == 34,
        jstr_at(b, i + 1, m.0, i + 2 + jstr(m.0).len() as int),
        (i + 2 + jstr(m.0).len() as int) < b.len(),
        b[i + 2 + jstr(m.0).len() as int] == 58,
        m.1 ==> (i + 3 + jstr(m.0).len() as int) < b.len() && b[i + 3 + jstr(m.0).len() as int]
            == 34 && jstr_at(b, i + 4 + jstr(m.0).len() as int, m.2, vend) && vend == i + 5 + jstr(
            m.0,
        ).len() as int + jstr(m.2).len() as int,
        !m.1 ==> b.subrange(i + 3 + jstr(m.0).len() as int, vend) == dec_digits(m.3 as nat)
            && vend == i + 3 + jstr(m.0).len() as int + dec_digits(m.3 as nat).len() as int,
    ensures
        b.subrange(i, vend) == render_member(m),
{
    let jk = i + 2 + jstr(m.0).len() as int;
    let rv = render_val(m.1, m.2, m.3);
    let rm = render_member(m);
    assert(rm == seq![34u8] + jstr(m.0) + seq![34u8, 58u8] + rv);
    assert(rm.len() == 3 + jstr(m.0).len() + rv.len()) by {
        assert((seq![34u8] + jstr(m.0) + seq![34u8, 58u8] + rv).len() == 3 + jstr(m.0).len()
            + rv.len());
    }
    assert((jstr(m.0) + seq![34u8]).len() == jstr(m.0).len() + 1);
    if m.1 {
        assert(rv == seq![34u8] + jstr(m.2) + seq![34u8]);
        assert(rv.len() == 2 + jstr(m.2).len()) by {
            assert((seq![34u8] + jstr(m.2) + seq![34u8]).len() == 2 + jstr(m.2).len());
        }
        assert((jstr(m.2) + seq![34u8]).len() == jstr(m.2).len() + 1);
    } else {
        assert(rv == dec_digits(m.3 as nat));
    }
    assert(vend - i == rm.len());
    assert forall|t: int| 0 <= t < vend - i implies b.subrange(i, vend)[t] == rm[t] by {
        assert(b.subrange(i, vend)[t] == b[i + t]);
        if t == 0 {
        } else if t <= jk - i - 1 {
            assert(b[i + t] == b.subrange(i + 1, jk)[t - 1]);
            assert(b.subrange(i + 1, jk)[t - 1] == (jstr(m.0) + seq![34u8])[t - 1]);
        } else if t == jk - i {
        } else {
            if m.1 {
                if t == jk - i + 1 {
                } else {
                    assert(b[i + t] == b.subrange(jk + 2, vend)[t - (jk - i + 2)]);
                    assert(b.subrange(jk + 2, vend)[t - (jk - i + 2)] == (jstr(m.2) + seq![
                        34u8,
                    ])[t - (jk - i + 2)]);
                }
            } else {
                assert(b[i + t] == b.subrange(jk + 1, vend)[t - (jk - i + 1)]);
                assert(b.subrange(jk + 1, vend)[t - (jk - i + 1)] == dec_digits(m.3 as nat)[t - (jk
                    - i + 1)]);
            }
        }
    }
    assert(b.subrange(i, vend) =~= rm);
}

/// The member list a parser built, seen abstractly.
pub open spec fn views(ms: Seq<(Vec<u8>, bool, Vec<u8>, u64)>) -> Seq<Member> {
    ms.map(|i: int, m: (Vec<u8>, bool, Vec<u8>, u64)| (m.0@, m.1, m.2@, m.3))
}

/// Where a parse is under way with `pre` members read and the cursor at
/// `i`, the remaining bytes are the remaining members and the brace.
proof fn lemma_obj_step(b: Seq<u8>, i: int, pre: Seq<Member>, msx: Seq<Member>)
    requires
        b == obj_bytes(msx),
        msx.len() > pre.len(),
        msx.take(pre.len() as int) == pre,
        0 <= i <= b.len(),
        b.subrange(0, i) == seq![123u8] + render_cm(pre),
    ensures
        b.subrange(i, b.len() as int) == render_members(msx.skip(pre.len() as int)) + seq![125u8],
        msx.skip(pre.len() as int).len() >= 1,
{
    let k = pre.len() as int;
    lemma_render_split(msx, k);
    assert(render_members(msx) == render_cm(pre) + render_members(msx.skip(k)));
    assert((seq![123u8] + render_cm(pre)).len() == 1 + render_cm(pre).len());
    assert(i == 1 + render_cm(pre).len());
    assert((render_cm(pre) + render_members(msx.skip(k))).len() == render_cm(pre).len()
        + render_members(msx.skip(k)).len());
    assert(b.len() == 1 + render_cm(pre).len() + render_members(msx.skip(k)).len() + 1);
    assert forall|t: int| 0 <= t < b.len() - i implies b.subrange(i, b.len() as int)[t] == (
    render_members(msx.skip(k)) + seq![125u8])[t] by {
        assert(b.subrange(i, b.len() as int)[t] == b[i + t]);
        assert(b[i + t] == (seq![123u8] + render_members(msx) + seq![125u8])[i + t]);
    }
    assert(b.subrange(i, b.len() as int) =~= render_members(msx.skip(k)) + seq![125u8]);
}

/// Parses a compact flat object: members in any order, string or number
/// values; `None` where the bytes are no such object.
#[verifier::rlimit(100)]
pub fn parse_object(b: &Vec<u8>) -> (r: Option<Vec<(Vec<u8>, bool, Vec<u8>, u64)>>)
    ensures
        match r {
            Some(ms) => wf_members(views(ms@)) && b@ == obj_bytes(views(ms@)),
            None => forall|ms: Seq<Member>| wf_members(ms) ==> b@ != obj_bytes(ms),
        },
{
    let len = b.len();
    if len < 2 || b[0] != 123 {
        proof {
            assert forall|msx: Seq<Member>| wf_members(msx) implies b@ != obj_bytes(msx) by {
                if b@ == obj_bytes(msx) {
                    assert(b@.len() == (seq![123u8] + render_members(msx) + seq![125u8]).len());
                    assert(b@[0] == obj_bytes(msx)[0]);
                }
            }
        }
        return None;
    }
    if b[1] == 125 {
        if len == 2 {
            let empty_ms: Vec<(Vec<u8>, bool, Vec<u8>, u64)> = Vec::new();
            proof {
                assert(views(empty_ms@) =~= Seq::<Member>::empty());
                assert(obj_bytes(Seq::<Member>::empty()) =~= b@);
            }
            return Some(empty_ms);
        }
        proof {
            assert forall|msx: Seq<Member>| wf_members(msx) implies b@ != obj_bytes(msx) by {
                if b@ == obj_bytes(msx) {
                    if msx.len() == 0 {
                        assert(b@.len() == (seq![123u8] + render_members(Seq::<Member>::empty())
                            + seq![125u8]).len());
                    } else {
                        assert(b@.subrange(1, len as int) =~= render_members(msx) + seq![125u8]);
                        lemma_member_first(b@, 1, msx);
                        assert(b@[1] == 34);
                    }
                }
            }
        }
        return None;
    }
    let mut ms: Vec<(Vec<u8>, bool, Vec<u8>, u64)> = Vec::new();
    let mut i: usize = 1;
    proof {
        assert(render_cm(views(ms@)) == Seq::<u8>::empty()) by {
            assert(views(ms@) =~= Seq::<Member>::empty());
            assert(render_cm(Seq::<Member>::empty()) == Seq::<u8>::empty());
        }
        assert(b@.subrange(0, 1) =~= seq![123u8] + render_cm(views(ms@)));
        assert forall|msx: Seq<Member>|
            wf_members(msx) && b@ == obj_bytes(msx) implies msx.len() > views(ms@).len()
            && msx.take(views(ms@).len() as int) == views(ms@) by {
            if msx.len() == 0 {
                assert(b@.len() == (seq![123u8] + render_members(Seq::<Member>::empty()) + seq![
                    125u8,
                ]).len());
                assert(render_members(Seq::<Member>::empty()) == Seq::<u8>::empty());
                assert(b@[1] == obj_bytes(msx)[1]);
                assert(false);
            }
            assert(msx.take(0) =~= views(ms@));
        }
    }
    loop
        invariant
            1 <= i <= len,
            len == b@.len(),
            wf_members(views(ms@)),
            b@.subrange(0, i as int) == seq![123u8] + render_cm(views(ms@)),
            forall|msx: Seq<Member>|
                wf_members(msx) && b@ == obj_bytes(msx) ==> msx.len() > views(ms@).len()
                    && msx.take(views(ms@).len() as int) == views(ms@),
        decreases len - i,
    {
        let ghost pre = views(ms@);
        if !(i < len && b[i] == 34) {
            proof {
                assert forall|msx: Seq<Member>| wf_members(msx) implies b@ != obj_bytes(msx) by {
                    if b@ == obj_bytes(msx) {
                        lemma_obj_step(b@, i as int, pre, msx);
                        lemma_member_first(b@, i as int, msx.skip(pre.len() as int));
                    }
                }
            }
            return None;
        }
        let step1 = scan_jstr(b, i + 1);
        if step1.is_none() {
            proof {
                assert forall|msx: Seq<Member>| wf_members(msx) implies b@ != obj_bytes(msx) by {
                    if b@ == obj_bytes(msx) {
                        lemma_obj_step(b@, i as int, pre, msx);
                        lemma_member_first(b@, i as int, msx.skip(pre.len() as int));
                    }
                }
            }
            return None;
        }
        let (key, jk) = step1.unwrap();
        if !(jk < len && b[jk] == 58) {
            proof {
                assert forall|msx: Seq<Member>| wf_members(msx) implies b@ != obj_bytes(msx) by {
                    if b@ == obj_bytes(msx) {
                        lemma_obj_step(b@, i as int, pre, msx);
                        let suf = msx.skip(pre.len() as int);
                        lemma_member_first(b@, i as int, suf);
                        lemma_jstr_at_unique(
                            b@,
                            i as int + 1,
                            key@,
                            jk as int,
                            suf[0].0,
                            i as int + 1 + jstr(suf[0].0).len() as int + 1,
                        );
                    }
                }
            }
            return None;
        }
        let is_str = jk + 1 < len && b[jk + 1] == 34;
        let mut sv: Vec<u8> = Vec::new();
        let mut nv: u64 = 0;
        let vend: usize;
        if is_str {
            let stepv = scan_jstr(b, jk + 2);
            if stepv.is_none() {
                proof {
                    assert forall|msx: Seq<Member>| wf_members(msx) implies b@ != obj_bytes(
                        msx,
                    ) by {
                        if b@ == obj_bytes(msx) {
                            lemma_obj_step(b@, i as int, pre, msx);
                            let suf = msx.skip(pre.len() as int);
                            lemma_member_first(b@, i as int, suf);
                            lemma_jstr_at_unique(
                                b@,
                                i as int + 1,
                                key@,
                                jk as int,
                                suf[0].0,
                                i as int + 1 + jstr(suf[0].0).len() as int + 1,
                            );
                            if !suf[0].1 {
                                lemma_dec_digits_shape(suf[0].3 as nat);
                                assert(b@[jk as int + 1] == b@.subrange(
                                    jk as int + 1,
                                    jk as int + 1 + dec_digits(suf[0].3 as nat).len() as int,
                                )[0]);
                                assert(is_digit(b@[jk as int + 1]));
                            }
                        }
                    }
                }
                return None;
            }
            let p = stepv.unwrap();
            sv = p.0;
            vend = p.1;
        } else {
            let stepn = scan_number(b, jk + 1);
            if stepn.is_none() {
                proof {
                    assert forall|msx: Seq<Member>| wf_members(msx) implies b@ != obj_bytes(
                        msx,
                    ) by {
                        if b@ == obj_bytes(msx) {
                            lemma_obj_step(b@, i as int, pre, msx);
                            let suf = msx.skip(pre.len() as int);
                            lemma_member_first(b@, i as int, suf);
                            lemma_jstr_at_unique(
                                b@,
                                i as int + 1,
                                key@,
                                jk as int,
                                suf[0].0,
                                i as int + 1 + jstr(suf[0].0).len() as int + 1,
                            );
                            if suf[0].1 {
                                assert(b@[jk as int + 1] == 34);
                            }
                        }
                    }
                }
                return None;
            }
            let p = stepn.unwrap();
            nv = p.0;
            vend = p.1;
        }
        let m = (key, is_str, sv, nv);
        let ghost mv = (m.0@, m.1, m.2@, m.3);
        proof {
            // any full decomposition agrees with this member
            assert forall|msx: Seq<Member>|
                wf_members(msx) && b@ == obj_bytes(msx) implies msx.len() > pre.len()
                && msx.take(pre.len() as int) == pre && msx[pre.len() as int] == mv && ({
                let suf = msx.skip(pre.len() as int);
                let sjk = i as int + 1 + jstr(suf[0].0).len() as int + 1;
                (suf[0].1 ==> vend as int == sjk + 2 + jstr(suf[0].2).len() as int + 1) && (
                !suf[0].1 ==> vend as int == sjk + 1 + dec_digits(suf[0].3 as nat).len() as int)
            }) by {
                lemma_obj_step(b@, i as int, pre, msx);
                let suf = msx.skip(pre.len() as int);
                lemma_member_first(b@, i as int, suf);
                let sjk = i as int + 1 + jstr(suf[0].0).len() as int + 1;
                lemma_jstr_at_unique(b@, i as int + 1, key@, jk as int, suf[0].0, sjk);
                if is_str {
                    if !suf[0].1 {
                        lemma_dec_digits_shape(suf[0].3 as nat);
                        assert(b@[jk as int + 1] == b@.subrange(
                            jk as int + 1,
                            jk as int + 1 + dec_digits(suf[0].3 as nat).len() as int,
                        )[0]);
                        assert(is_digit(b@[jk as int + 1]));
                        assert(false);
                    }
                    lemma_jstr_at_unique(
                        b@,
                        jk as int + 2,
                        sv@,
                        vend as int,
                        suf[0].2,
                        sjk + 2 + jstr(suf[0].2).len() as int + 1,
                    );
                    assert(suf[0].3 == 0);
                } else {
                    if suf[0].1 {
                        assert(b@[jk as int + 1] == 34);
                        assert(false);
                    }
                    lemma_num_at_unique(
                        b@,
                        jk as int + 1,
                        nv,
                        vend as int,
                        suf[0].3,
                        sjk + 1 + dec_digits(suf[0].3 as nat).len() as int,
                    );
                    assert(suf[0].2 == Seq::<u8>::empty());
                }
                assert(msx[pre.len() as int] == suf[0]);
                assert(suf[0] == mv);
            }
            // the member's bytes
            assert((jstr(key@) + seq![34u8]).len() == jstr(key@).len() + 1);
            assert(jk as int == i as int + 2 + jstr(key@).len());
            if is_str {
                assert((jstr(sv@) + seq![34u8]).len() == jstr(sv@).len() + 1);
                assert(vend as int == i as int + 5 + jstr(key@).len() + jstr(sv@).len());
            }
            lemma_member_assemble(b@, i as int, mv, vend as int);
        }
        ms.push(m);
        proof {
            assert(views(ms@) =~= pre + seq![mv]);
            assert(wf_members(views(ms@)));
        }
        if vend < len && b[vend] == 44 {
            proof {
                lemma_render_cm_snoc(pre, mv);
                assert(b@.subrange(0, vend as int + 1) =~= b@.subrange(0, i as int) + b@.subrange(
                    i as int,
                    vend as int,
                ) + seq![b@[vend as int]]);
                assert(b@.subrange(0, vend as int + 1) == (seq![123u8] + render_cm(pre))
                    + render_member(mv) + seq![44u8]);
                assert((seq![123u8] + render_cm(pre)) + render_member(mv) + seq![44u8] =~= seq![
                    123u8,
                ] + render_cm(views(ms@)));
                assert forall|msx: Seq<Member>|
                    wf_members(msx) && b@ == obj_bytes(msx) implies msx.len() > views(
                    ms@,
                ).len() && msx.take(views(ms@).len() as int) == views(ms@) by {
                    lemma_obj_step(b@, i as int, pre, msx);
                    let suf = msx.skip(pre.len() as int);
                    lemma_member_first(b@, i as int, suf);
                    if suf.len() == 1 {
                        assert(b@[vend as int] == 125);
                        assert(false);
                    }
                    assert(msx.take(views(ms@).len() as int) =~= pre + seq![mv]);
                }
            }
            i = vend + 1;
        } else if len - vend == 1 && b[vend] == 125 {
            proof {
                lemma_render_members_snoc(pre, mv);
                assert(b@ =~= b@.subrange(0, i as int) + b@.subrange(i as int, vend as int) + seq![
                    b@[vend as int],
                ]);
                assert(b@ == (seq![123u8] + render_cm(pre)) + render_member(mv) + seq![125u8]);
                assert((seq![123u8] + render_cm(pre)) + render_member(mv) + seq![125u8] =~= seq![
                    123u8,
                ] + render_members(views(ms@)) + seq![125u8]);
            }
            return Some(ms);
        } else {
            proof {
                assert forall|msx: Seq<Member>| wf_members(msx) implies b@ != obj_bytes(msx) by {
                    if b@ == obj_bytes(msx) {
                        lemma_obj_step(b@, i as int, pre, msx);
                        let suf = msx.skip(pre.len() as int);
                        lemma_member_first(b@, i as int, suf);
                        if suf.len() == 1 {
                            assert(b@[vend as int] == 125 && vend as int + 1 == len as int);
                        } else {
                            assert(b@[vend as int] == 44 && vend < len);
                        }
                    }
                }
            }
            return None;
        }
    }
}


/// `iss`
pub open spec fn key_iss() -> Seq<u8> {
    seq![105u8, 115u8, 115u8]
}

/// `iat`
pub open spec fn key_iat() -> Seq<u8> {
    seq![105u8, 97u8, 116u8]
}

/// `exp`
pub open spec fn key_exp() -> Seq<u8> {
    seq![101u8, 120u8, 112u8]
}

/// `alg`
pub open spec fn key_alg() -> Seq<u8> {
    seq![97u8, 108u8, 103u8]
}

/// `kid`
pub open spec fn key_kid() -> Seq<u8> {
    seq![107u8, 105u8, 100u8]
}

/// The string value of a member, where present with that type.
pub open spec fn str_find(ms: Seq<Member>, key: Seq<u8>) -> Option<Seq<u8>> {
    match find_member(ms, key) {
        Some(v) => if v.0 {
            Some(v.1)
        } else {
            None
        },
        None => None,
    }
}

/// The number value of a member, where present with that type.
pub open spec fn num_find(ms: Seq<Member>, key: Seq<u8>) -> Option<u64> {
    match find_member(ms, key) {
        Some(v) => if !v.0 {
            Some(v.2)
        } else {
            None
        },
        None => None,
    }
}

/// The one reading of a byte sequence as a flat object.
pub open spec fn spec_obj(b: Seq<u8>) -> Option<Seq<Member>> {
    if exists|ms: Seq<Member>| wf_members(ms) && b == obj_bytes(ms) {
        Some(choose|ms: Seq<Member>| wf_members(ms) && b == obj_bytes(ms))
    } else {
        None
    }
}

/// The reading of a byte sequence as a claims object: the issuer,
/// issued-at and expiration members must be present with their types;
/// member order is free and unknown members are ignored.
pub open spec fn spec_parse_claims(b: Seq<u8>) -> Option<(Seq<u8>, u64, u64)> {
    match spec_obj(b) {
        Some(ms) => match (str_find(ms, key_iss()), num_find(ms, key_iat()), num_find(
            ms,
            key_exp(),
        )) {
            (Some(i), Some(a), Some(e)) => Some((i, a, e)),
            _ => None,
        },
        None => None,
    }
}

/// The reading of a byte sequence as a header object: the algorithm and
/// key-id members are each reported where present as strings; member
/// order is free and unknown members are ignored.
pub open spec fn spec_parse_header(b: Seq<u8>) -> Option<(Option<Seq<u8>>, Option<Seq<u8>>)> {
    match spec_obj(b) {
        Some(ms) => Some((str_find(ms, key_alg()), str_find(ms, key_kid()))),
        None => None,
    }
}

/// Skipping members that do not carry the key leaves the find unchanged.
proof fn lemma_find_from(ms: Seq<Member>, key: Seq<u8>, idx: int)
    requires
        0 <= idx <= ms.len(),
        forall|k: int| 0 <= k < idx ==> (#[trigger] ms[k]).0 != key,
    ensures
        find_member(ms, key) == find_member(ms.skip(idx), key),
    decreases idx,
{
    if idx > 0 {
        assert(ms[0].0 != key);
        assert(forall|k: int| 0 <= k < idx - 1 ==> (#[trigger] ms.skip(1)[k]) == ms[k + 1]);
        assert forall|k: int| 0 <= k < idx - 1 implies (#[trigger] ms.skip(1)[k]).0 != key by {
            assert(ms.skip(1)[k] == ms[k + 1]);
        }
        lemma_find_from(ms.skip(1), key, idx - 1);
        assert(ms.skip(1).skip(idx - 1) =~= ms.skip(idx));
    } else {
        assert(ms.skip(0) =~= ms);
    }
}

/// Finds the first member with the given key.
fn find_key(ms: &Vec<(Vec<u8>, bool, Vec<u8>, u64)>, key: &[u8]) -> (r: Option<usize>)
    ensures
        match r {
            Some(idx) => idx < ms@.len() && views(ms@)[idx as int].0 == key@ && find_member(
                views(ms@),
                key@,
            ) == Some(
                (
                    views(ms@)[idx as int].1,
                    views(ms@)[idx as int].2,
                    views(ms@)[idx as int].3,
                ),
            ),
            None => find_member(views(ms@), key@) is None,
        },
{
    let n = ms.len();
    let mut i: usize = 0;
    while i < n
        invariant
            i <= n,
            n == ms@.len(),
            forall|k: int| 0 <= k < i ==> (#[trigger] views(ms@)[k]).0 != key@,
        decreases n - i,
    {
        if crate::token::bytes_eq(ms[i].0.as_slice(), key) {
            proof {
                lemma_find_from(views(ms@), key@, i as int);
                assert(views(ms@).skip(i as int)[0] == views(ms@)[i as int]);
                assert(views(ms@).skip(i as int).len() >= 1);
            }
            return Some(i);
        }
        proof {
            assert(views(ms@)[i as int].0 == ms@[i as int].0@);
        }
        i += 1;
    }
    proof {
        lemma_find_from(views(ms@), key@, n as int);
        assert(views(ms@).skip(n as int) =~= Seq::<Member>::empty());
    }
    None
}

/// Copies a byte string.
fn copy_bytes(a: &[u8]) -> (r: Vec<u8>)
    ensures
        r@ == a@,
{
    let n = a.len();
    let mut out: Vec<u8> = Vec::new();
    let mut i: usize = 0;
    while i < n
        invariant
            i <= n,
            n == a@.len(),
            out@ == a@.take(i as int),
        decreases n - i,
    {
        out.push(a[i]);
        i += 1;
        proof {
            assert(out@ =~= a@.take(i as int));
        }
    }
    proof {
        assert(a@.take(n as int) =~= a@);
    }
    out
}

/// `iss` as bytes.
fn key_iss_vec() -> (r: Vec<u8>)
    ensures
        r@ == key_iss(),
{
    let mut v: Vec<u8> = Vec::new();
    v.push(105);
    v.push(115);
    v.push(115);
    proof {
        assert(v@ =~= key_iss());
    }
    v
}

/// `iat` as bytes.
fn key_iat_vec() -> (r: Vec<u8>)
    ensures
        r@ == key_iat(),
{
    let mut v: Vec<u8> = Vec::new();
    v.push(105);
    v.push(97);
    v.push(116);
    proof {
        assert(v@ =~= key_iat());
    }
    v
}

/// `exp` as bytes.
fn key_exp_vec() -> (r: Vec<u8>)
    ensures
        r@ == key_exp(),
{
    let mut v: Vec<u8> = Vec::new();
    v.push(101);
    v.push(120);
    v.push(112);
    proof {
        assert(v@ =~= key_exp());
    }
    v
}

/// `alg` as bytes.
fn key_alg_vec() -> (r: Vec<u8>)
    ensures
        r@ == key_alg(),
{
    let mut v: Vec<u8> = Vec::new();
    v.push(97);
    v.push(108);
    v.push(103);
    proof {
        assert(v@ =~= key_alg());
    }
    v
}

/// `kid` as bytes.
fn key_kid_vec() -> (r: Vec<u8>)
    ensures
        r@ == key_kid(),
{
    let mut v: Vec<u8> = Vec::new();
    v.push(107);
    v.push(105);
    v.push(100);
    proof {
        assert(v@ =~= key_kid());
    }
    v
}

/// Parses a claims object; `None` exactly where the spec-level reading
/// gives none.
pub fn parse_claims(b: &Vec<u8>) -> (r: Option<(Vec<u8>, u64, u64)>)
    ensures
        match r {
            Some(t) => spec_parse_claims(b@) == Some((t.0@, t.1, t.2)),
            None => spec_parse_claims(b@) is None,
        },
{
    let obj = parse_object(b);
    if obj.is_none() {
        proof {
            if exists|ms: Seq<Member>| wf_members(ms) && b@ == obj_bytes(ms) {
                let ms = choose|ms: Seq<Member>| wf_members(ms) && b@ == obj_bytes(ms);
                assert(b@ != obj_bytes(ms));
            }
        }
        return None;
    }
    let ms = obj.unwrap();
    proof {
        let w = views(ms@);
        assert(wf_members(w) && b@ == obj_bytes(w));
        let c = choose|ms2: Seq<Member>| wf_members(ms2) && b@ == obj_bytes(ms2);
        lemma_obj_unique(b@, c, w);
        assert(spec_obj(b@) == Some(w));
    }
    let ik = key_iss_vec();
    let ak = key_iat_vec();
    let ek = key_exp_vec();
    let i_idx = match find_key(&ms, ik.as_slice()) {
        Some(x) => x,
        None => {
            return None;
        },
    };
    if !ms[i_idx].1 {
        return None;
    }
    let a_idx = match find_key(&ms, ak.as_slice()) {
        Some(x) => x,
        None => {
            return None;
        },
    };
    if ms[a_idx].1 {
        return None;
    }
    let e_idx = match find_key(&ms, ek.as_slice()) {
        Some(x) => x,
        None => {
            return None;
        },
    };
    if ms[e_idx].1 {
        return None;
    }
    let issv = copy_bytes(ms[i_idx].2.as_slice());
    Some((issv, ms[a_idx].3, ms[e_idx].3))
}

/// Parses a header object; `None` exactly where the spec-level reading
/// gives none, and each of the algorithm and key-id strings where the
/// member is present with that type.
pub fn parse_header(b: &Vec<u8>) -> (r: Option<(Option<Vec<u8>>, Option<Vec<u8>>)>)
    ensures
        match r {
            Some(t) => spec_parse_header(b@) == Some(
                (
                    match t.0 {
                        Some(v) => Some(v@),
                        None => None,
                    },
                    match t.1 {
                        Some(v) => Some(v@),
                        None => None,
                    },
                ),
            ),
            None => spec_parse_header(b@) is None,
        },
{
    let obj = parse_object(b);
    if obj.is_none() {
        proof {
            if exists|ms: Seq<Member>| wf_members(ms) && b@ == obj_bytes(ms) {
                let ms = choose|ms: Seq<Member>| wf_members(ms) && b@ == obj_bytes(ms);
                assert(b@ != obj_bytes(ms));
            }
        }
        return None;
    }
    let ms = obj.unwrap();
    proof {
        let w = views(ms@);
        assert(wf_members(w) && b@ == obj_bytes(w));
        let c = choose|ms2: Seq<Member>| wf_members(ms2) && b@ == obj_bytes(ms2);
        lemma_obj_unique(b@, c, w);
        assert(spec_obj(b@) == Some(w));
    }
    let gk = key_alg_vec();
    let kk = key_kid_vec();
    let alg_v: Option<Vec<u8>> = match find_key(&ms, gk.as_slice()) {
        Some(idx) => if ms[idx].1 {
            Some(copy_bytes(ms[idx].2.as_slice()))
        } else {
            None
        },
        None => None,
    };
    let kid_v: Option<Vec<u8>> = match find_key(&ms, kk.as_slice()) {
        Some(idx) => if ms[idx].1 {
            Some(copy_bytes(ms[idx].2.as_slice()))
        } else {
            None
        },
        None => None,
    };
    Some((alg_v, kid_v))
}


/// A three-byte key of plain bytes encodes as itself.
proof fn lemma_jstr_plain3(k: Seq<u8>)
    requires
        k.len() == 3,
        forall|i: int| 0 <= i < 3 ==> 32 <= #[trigger] k[i] && k[i] != 34 && k[i] != 92,
    ensures
        jstr(k) == k,
{
    reveal_with_fuel(jstr, 5);
    assert(k.skip(1).skip(1) =~= k.skip(2));
    assert(k.skip(2).skip(1) =~= k.skip(3));
    assert(k.skip(3) =~= Seq::<u8>::empty());
    assert(k.skip(1)[0] == k[1] && k.skip(2)[0] == k[2]);
    assert(esc_byte(k[0]) == seq![k[0]] && esc_byte(k[1]) == seq![k[1]] && esc_byte(k[2])
        == seq![k[2]]);
    assert(jstr(k) =~= k);
}

/// Serializing then reading claims gives them back: the canonical bytes
/// are the three-member object.
#[verifier::rlimit(100)]
pub proof fn lemma_spec_parse_claims(b: Seq<u8>, iss: Seq<u8>, iat: u64, exp: u64)
    requires
        b == claims_json_bytes(iss, iat, exp),
    ensures
        spec_parse_claims(b) == Some((iss, iat, exp)),
{
    let m0: Member = (key_iss(), true, iss, 0u64);
    let m1: Member = (key_iat(), false, Seq::<u8>::empty(), iat);
    let m2: Member = (key_exp(), false, Seq::<u8>::empty(), exp);
    let cms = seq![m0, m1, m2];
    lemma_jstr_plain3(key_iss());
    lemma_jstr_plain3(key_iat());
    lemma_jstr_plain3(key_exp());
    assert(cms.skip(1) =~= seq![m1, m2]);
    assert(seq![m1, m2].skip(1) =~= seq![m2]);
    reveal_with_fuel(render_members, 4);
    assert(render_members(cms) == render_member(m0) + seq![44u8] + (render_member(m1) + seq![
        44u8,
    ] + render_member(m2)));
    assert(obj_bytes(cms) =~= claims_json_bytes(iss, iat, exp));
    assert(wf_members(cms));
    let c = choose|ms: Seq<Member>| wf_members(ms) && b == obj_bytes(ms);
    lemma_obj_unique(b, c, cms);
    reveal_with_fuel(find_member, 4);
    assert(key_iss() != key_iat()) by {
        assert(key_iss()[1] == 115 && key_iat()[1] == 97);
    }
    assert(key_iss() != key_exp()) by {
        assert(key_iss()[0] == 105 && key_exp()[0] == 101);
    }
    assert(key_iat() != key_exp()) by {
        assert(key_iat()[0] == 105 && key_exp()[0] == 101);
    }
    assert(find_member(cms, key_iss()) == Some((true, iss, 0u64)));
    assert(find_member(cms, key_iat()) == Some((false, Seq::<u8>::empty(), iat)));
    assert(find_member(cms, key_exp()) == Some((false, Seq::<u8>::empty(), exp)));
}

/// Serializing then reading a header gives its two members back.
#[verifier::rlimit(100)]
pub proof fn lemma_spec_parse_header(b: Seq<u8>, alg: Seq<u8>, kid: Seq<u8>)
    requires
        b == header_json_bytes(alg, kid),
    ensures
        spec_parse_header(b) == Some((Some(alg), Some(kid))),
{
    let m0: Member = (key_alg(), true, alg, 0u64);
    let m1: Member = (key_kid(), true, kid, 0u64);
    let hms = seq![m0, m1];
    lemma_jstr_plain3(key_alg());
    lemma_jstr_plain3(key_kid());
    assert(hms.skip(1) =~= seq![m1]);
    reveal_with_fuel(render_members, 3);
    assert(render_members(hms) == render_member(m0) + seq![44u8] + render_member(m1));
    assert(obj_bytes(hms) =~= header_json_bytes(alg, kid));
    assert(wf_members(hms));
    let c = choose|ms: Seq<Member>| wf_members(ms) && b == obj_bytes(ms);
    lemma_obj_unique(b, c, hms);
    reveal_with_fuel(find_member, 3);
    assert(key_alg() != key_kid()) by {
        assert(key_alg()[0] == 97 && key_kid()[0] == 107);
    }
    assert(find_member(hms, key_alg()) == Some((true, alg, 0u64)));
    assert(find_member(hms, key_kid()) == Some((true, kid, 0u64)));
}

} // verus!
