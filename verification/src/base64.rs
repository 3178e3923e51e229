//! Unpadded base64url decoding, as used for the payload of a JWT.
use vstd::prelude::*;
use vstd::string::StringSliceAdditionalSpecFns;

verus! {

/// The 6-bit value of a base64url digit.
pub open spec fn digit_value(b: u8) -> Option<u8> {
    if 65 <= b <= 90 {
        Some((b - 65) as u8)
    } else if 97 <= b <= 122 {
        Some((b - 97 + 26) as u8)
    } else if 48 <= b <= 57 {
        Some((b - 48 + 52) as u8)
    } else if b == 45 {
        Some(62)
    } else if b == 95 {
        Some(63)
    } else {
        None
    }
}

/// The 6-bit values of `s` up to its first `'='` (or its end); `None` when
/// a byte before that is not a base64url digit.
pub open spec fn sextets(s: Seq<u8>) -> Option<Seq<u8>>
    decreases s.len(),
{
    if s.len() == 0 || s[0] == 61 {
        Some(seq![])
    } else {
        match digit_value(s[0]) {
            None => None,
            Some(v) => match sextets(s.drop_first()) {
                None => None,
                Some(r) => Some(seq![v] + r),
            },
        }
    }
}

/// The byte that sextet `n` completes: every sextet but the first of each
/// group of four ends one byte, made of the low bits of the sextet before it
/// and the high bits of this one.
pub open spec fn completed_byte(v: Seq<u8>, n: int) -> Seq<u8> {
    let p = n % 4;
    if p == 0 {
        seq![]
    } else if p == 1 {
        seq![((v[n - 1] as int) * 4 + (v[n] as int) / 16) as u8]
    } else if p == 2 {
        seq![((v[n - 1] as int) % 16 * 16 + (v[n] as int) / 4) as u8]
    } else {
        seq![((v[n - 1] as int) % 4 * 64 + (v[n] as int)) as u8]
    }
}

/// The bytes that the sextets `v` encode (a trailing partial byte is dropped).
pub open spec fn sextet_bytes(v: Seq<u8>) -> Seq<u8>
    decreases v.len(),
{
    if v.len() == 0 {
        seq![]
    } else {
        sextet_bytes(v.drop_last()) + completed_byte(v, v.len() - 1)
    }
}

/// Decoding of the bytes `s`: refused when their count leaves a remainder of
/// one modulo four or when a non-digit comes before the first `'='`.
pub open spec fn base64url(s: Seq<u8>) -> Option<Seq<u8>> {
    if s.len() % 4 == 1 {
        None
    } else {
        match sextets(s) {
            None => None,
            Some(v) => Some(sextet_bytes(v)),
        }
    }
}

pub open spec fn prepend(v: Seq<u8>, o: Option<Seq<u8>>) -> Option<Seq<u8>> {
    match o {
        None => None,
        Some(r) => Some(v + r),
    }
}

/// Law: `n` sextets decode to `3n/4` bytes (rounded down): three bytes
/// for each group of four, and one byte fewer than the sextets of a partial
/// group.
pub proof fn lemma_decoded_length(v: Seq<u8>)
    ensures
        sextet_bytes(v).len() == v.len() * 3 / 4,
    decreases v.len(),
{
    if v.len() > 0 {
        lemma_decoded_length(v.drop_last());
        let n = v.len() - 1;
        assert(completed_byte(v, n).len() == if n % 4 == 0 { 0int } else { 1int });
        assert((n + 1) * 3 / 4 == n * 3 / 4 + if n % 4 == 0 { 0int } else { 1int }) by {
            let q = n / 4;
            let r = n % 4;
            assert(n == 4 * q + r);
            assert(n * 3 == 12 * q + 3 * r);
            assert((n + 1) * 3 == 12 * q + 3 * r + 3);
            assert((12 * q + 3 * r) / 4 == 3 * q + (3 * r) / 4) by {
                assert(12 * q + 3 * r == 4 * (3 * q) + 3 * r);
            }
            assert((12 * q + 3 * r + 3) / 4 == 3 * q + (3 * r + 3) / 4) by {
                assert(12 * q + 3 * r + 3 == 4 * (3 * q) + (3 * r + 3));
            }
        }
    }
}

/// The base64url digit of the 6-bit value `x`.
pub open spec fn alphabet(x: u8) -> u8 {
    if x < 26 {
        (x + 65) as u8
    } else if x < 52 {
        (x - 26 + 97) as u8
    } else if x < 62 {
        (x - 52 + 48) as u8
    } else if x == 62 {
        45
    } else {
        95
    }
}

/// Byte `i` of `b`, or zero past its end.
pub open spec fn byte_or_zero(b: Seq<u8>, i: int) -> u8 {
    if 0 <= i < b.len() {
        b[i]
    } else {
        0
    }
}

/// Sextet `k` of the encoding of `b`: each group of three bytes (missing
/// ones taken as zero) gives four sextets, high bits first.
pub open spec fn sextet_of(b: Seq<u8>, k: int) -> u8 {
    let g = k / 4;
    let b0 = byte_or_zero(b, 3 * g);
    let b1 = byte_or_zero(b, 3 * g + 1);
    let b2 = byte_or_zero(b, 3 * g + 2);
    let j = k % 4;
    if j == 0 {
        b0 / 4
    } else if j == 1 {
        ((b0 % 4) as int * 16 + (b1 / 16) as int) as u8
    } else if j == 2 {
        ((b1 % 16) as int * 4 + (b2 / 64) as int) as u8
    } else {
        b2 % 64
    }
}

/// Unpadded base64url encoding of `b`: `ceil(4m/3)` digits for `m` bytes.
pub open spec fn base64url_encoding(b: Seq<u8>) -> Seq<u8> {
    Seq::new(((b.len() * 4 + 2) / 3) as nat, |k: int| alphabet(sextet_of(b, k)))
}

proof fn lemma_alphabet_digit(x: u8)
    requires
        x < 64,
    ensures
        digit_value(alphabet(x)) == Some(x),
        alphabet(x) != 61,
{
}

/// A run of digits with the given values reads back as those values.
proof fn lemma_sextets_of_digits(s: Seq<u8>, v: Seq<u8>)
    requires
        s.len() == v.len(),
        forall|k: int| 0 <= k < s.len() ==> s[k] != 61 && digit_value(#[trigger] s[k]) == Some(v[k]),
    ensures
        sextets(s) == Some(v),
    decreases s.len(),
{
    if s.len() > 0 {
        assert(s[0] != 61 && digit_value(s[0]) == Some(v[0]));
        lemma_sextets_of_digits(s.drop_first(), v.drop_first());
        assert(seq![v[0]] + v.drop_first() =~= v);
    }
}

/// Position of the sextet that completes byte `k`.
pub open spec fn completing_sextet(k: int) -> int {
    4 * (k / 3) + k % 3 + 1
}

/// Byte `k` of what sextets `v` decode to is the one completed by the sextet
/// at `completing_sextet(k)`.
proof fn lemma_decoded_byte(v: Seq<u8>, k: int)
    requires
        0 <= k < v.len() * 3 / 4,
    ensures
        completing_sextet(k) < v.len(),
        sextet_bytes(v)[k] == completed_byte(v, completing_sextet(k))[0],
        completed_byte(v, completing_sextet(k)).len() == 1,
    decreases v.len(),
{
    let n = v.len() - 1;
    let dl = v.drop_last();
    lemma_decoded_length(dl);
    let p = completing_sextet(k);
    assert(p % 4 == k % 3 + 1 && p / 4 == k / 3) by {
        assert(p == 4 * (k / 3) + (k % 3 + 1));
    }
    if k < n * 3 / 4 {
        lemma_decoded_byte(dl, k);
        assert(completed_byte(dl, p) =~= completed_byte(v, p));
    } else {
        assert(p == n) by {
            let q = n / 4;
            let r = n % 4;
            assert(n == 4 * q + r);
            assert(n * 3 / 4 == 3 * q + (3 * r) / 4) by {
                assert(n * 3 == 4 * (3 * q) + 3 * r);
            }
            assert(v.len() * 3 / 4 == 3 * q + (3 * r + 3) / 4) by {
                assert(v.len() * 3 == 4 * (3 * q) + (3 * r + 3));
            }
            assert(k / 3 == q && k % 3 == r - 1);
        }
    }
}

proof fn lemma_regroup(b0: u8, b1: u8, b2: u8)
    ensures
        (b0 / 4) as int * 4 + ((b0 % 4) as int * 16 + (b1 / 16) as int) / 16 == b0,
        ((b0 % 4) as int * 16 + (b1 / 16) as int) % 16 * 16 + ((b1 % 16) as int * 4 + (b2 / 64) as int) / 4 == b1,
        ((b1 % 16) as int * 4 + (b2 / 64) as int) % 4 * 64 + (b2 % 64) as int == b2,
        ((b0 % 4) as int * 16 + (b1 / 16) as int) < 64,
        ((b1 % 16) as int * 4 + (b2 / 64) as int) < 64,
{
}

/// Law: decoding the unpadded base64url encoding of any bytes gives them back.
pub proof fn lemma_encoding_decodes(b: Seq<u8>)
    ensures
        base64url(base64url_encoding(b)) == Some(b),
{
    let s = base64url_encoding(b);
    let n = s.len();
    let v = Seq::new(n, |k: int| sextet_of(b, k));
    assert forall|k: int| 0 <= k < n implies s[k] != 61 && digit_value(#[trigger] s[k]) == Some(v[k]) by {
        let g = k / 4;
        lemma_regroup(byte_or_zero(b, 3 * g), byte_or_zero(b, 3 * g + 1), byte_or_zero(b, 3 * g + 2));
        lemma_alphabet_digit(sextet_of(b, k));
    }
    lemma_sextets_of_digits(s, v);
    let m = b.len() as int;
    assert(n % 4 != 1 && n * 3 / 4 == m) by {
        let q = m / 3;
        let r = m % 3;
        assert(m == 3 * q + r);
        assert(m * 4 + 2 == 3 * (4 * q) + (4 * r + 2));
        assert(n == 4 * q + (4 * r + 2) / 3);
        assert(n * 3 == 4 * (3 * q) + 3 * ((4 * r + 2) / 3));
    }
    lemma_decoded_length(v);
    assert forall|k: int| 0 <= k < m implies #[trigger] sextet_bytes(v)[k] == b[k] by {
        lemma_decoded_byte(v, k);
        let g = k / 3;
        let p = completing_sextet(k);
        assert(p % 4 == k % 3 + 1 && p / 4 == g && (p - 1) / 4 == g) by {
            assert(p == 4 * g + (k % 3 + 1));
            assert(p - 1 == 4 * g + k % 3);
        }
        lemma_regroup(byte_or_zero(b, 3 * g), byte_or_zero(b, 3 * g + 1), byte_or_zero(b, 3 * g + 2));
        assert(k == 3 * g + k % 3);
    }
    assert(sextet_bytes(v) =~= b);
}

proof fn lemma_phase1(buf: u32, v: u32)
    by (bit_vector)
    requires
        v < 64,
    ensures
        ((buf << 6) | v) & 63 == v,
{
}

proof fn lemma_phase2(buf: u32, v: u32)
    by (bit_vector)
    requires
        v < 64,
    ensures
        (((buf << 6) | v) >> 4) & 0xff == (buf & 63) * 4 + v / 16,
        ((buf << 6) | v) & 15 == v % 16,
        (buf & 63) * 4 + v / 16 < 256,
{
}

proof fn lemma_phase3(buf: u32, v: u32)
    by (bit_vector)
    requires
        v < 64,
    ensures
        (((buf << 6) | v) >> 2) & 0xff == (buf & 15) * 16 + v / 4,
        ((buf << 6) | v) & 3 == v % 4,
        (buf & 15) * 16 + v / 4 < 256,
{
}

proof fn lemma_phase0(buf: u32, v: u32, z: u8)
    by (bit_vector)
    requires
        v < 64,
        z == 0,
    ensures
        (((buf << 6) | v) >> z) & 0xff == (buf & 3) * 64 + v,
        (buf & 3) * 64 + v < 256,
{
}

fn digit(b: u8) -> (r: Option<u8>)
    ensures
        r == digit_value(b),
{
    if 65 <= b && b <= 90 {
        Some(b - 65)
    } else if 97 <= b && b <= 122 {
        Some(b - 97 + 26)
    } else if 48 <= b && b <= 57 {
        Some(b - 48 + 52)
    } else if b == 45 {
        Some(62)
    } else if b == 95 {
        Some(63)
    } else {
        None
    }
}

/// Decodes unpadded base64url (`-` and `_`), stopping at the first `'='`.
pub fn base64url_decode(input: &str) -> (r: Result<Vec<u8>, ()>)
    ensures
        match base64url(input.spec_bytes()) {
            Some(bytes) => r matches Ok(out) && out@ == bytes,
            None => r is Err,
        },
{
    let s = input.as_bytes();
    let n = s.len();
    if n % 4 == 1 {
        return Err(());
    }
    let mut out: Vec<u8> = Vec::new();
    let mut buf: u32 = 0;
    let mut bits: u8 = 0;
    let mut i: usize = 0;
    let ghost mut vals: Seq<u8> = seq![];
    assert(s@.subrange(0, n as int) =~= s@);
    assert(vals + seq![] =~= seq![]);
    while i < n
        invariant_except_break
            i <= n == s@.len(),
            s@ == input.spec_bytes(),
            n % 4 != 1,
            vals.len() == i,
            forall|k: int| 0 <= k < vals.len() ==> #[trigger] vals[k] < 64,
            sextets(s@) == prepend(vals, sextets(s@.subrange(i as int, n as int))),
            out@ == sextet_bytes(vals),
            i % 4 == 0 ==> bits == 0,
            i % 4 == 1 ==> bits == 6 && buf & 63 == vals[i - 1] as u32,
            i % 4 == 2 ==> bits == 4 && buf & 15 == (vals[i - 1] % 16) as u32,
            i % 4 == 3 ==> bits == 2 && buf & 3 == (vals[i - 1] % 4) as u32,
        ensures
            sextets(s@) == Some(vals),
            out@ == sextet_bytes(vals),
        decreases n - i,
    {
        let ghost rest = s@.subrange(i as int, n as int);
        assert(rest.drop_first() =~= s@.subrange(i + 1, n as int));
        let b = s[i];
        if b == 61 {
            assert(vals + seq![] =~= vals);
            break;
        }
        assert(rest[0] == b);
        let value = match digit(b) {
            Some(d) => d as u32,
            None => {
                assert(sextets(rest) is None);
                return Err(());
            },
        };
        let ghost v8 = value as u8;
        proof {
            let r = sextets(s@.subrange(i + 1, n as int));
            if let Some(t) = r {
                assert(vals + (seq![v8] + t) =~= vals.push(v8) + t);
            }
        }
        let ghost old_buf = buf;
        let ghost nv = vals.push(v8);
        assert(nv.drop_last() =~= vals);
        buf = (buf << 6) | value;
        bits = bits + 6;
        if bits >= 8 {
            bits = bits - 8;
            proof {
                if i % 4 == 1 {
                    lemma_phase2(old_buf, value);
                } else if i % 4 == 2 {
                    lemma_phase3(old_buf, value);
                } else {
                    lemma_phase0(old_buf, value, 0);
                }
            }
            let byte = ((buf >> bits) & 0xff) as u8;
            proof {
                assert(value < 64);
                assert(nv[i as int] == v8);
                assert(v8 as u32 == value);
                if i % 4 == 1 {
                    assert(bits == 4);
                    assert(nv[i - 1] == vals[i - 1]);
                    assert(byte as int == (vals[i - 1] as int) * 4 + (value as int) / 16);
                } else if i % 4 == 2 {
                    assert(bits == 2);
                    assert(byte as int == (vals[i - 1] as int) % 16 * 16 + (value as int) / 4);
                } else {
                    assert(i % 4 == 3);
                    assert(bits == 0);
                    assert(byte as int == (vals[i - 1] as int) % 4 * 64 + (value as int));
                }
            }
            assert(seq![byte] =~= completed_byte(nv, i as int));
            out.push(byte);
        } else {
            proof {
                lemma_phase1(old_buf, value);
            }
            assert(completed_byte(nv, i as int) =~= seq![]);
        }
        assert(sextet_bytes(nv) == sextet_bytes(vals) + completed_byte(nv, i as int));
        proof {
            vals = nv;
        }
        i = i + 1;
    }
    assert(s@.subrange(n as int, n as int) =~= seq![]);
    Ok(out)
}

} // verus!
