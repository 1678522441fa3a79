//! Base64url decoding for token segments.
//!
//! A token segment is unpadded base64url text. Decoding tolerates the
//! standard alphabet (`+`, `/`) alongside the url-safe one (`-`, `_`) and
//! tolerates trailing `=` padding. A segment whose length leaves
//! remainder 1 modulo 4 never arises from an encoder and is rejected.

use vstd::prelude::*;
use crate::model::DecodeError;

verus! {

/// The six-bit value of one base64url character, or `None` for a
/// character outside the alphabet.
pub open spec fn b64_digit_of(c: char) -> Option<u8> {
    let u = c as u32;
    if 65 <= u && u <= 90 {
        Some((u - 65) as u8)
    } else if 97 <= u && u <= 122 {
        Some((u - 97 + 26) as u8)
    } else if 48 <= u && u <= 57 {
        Some((u - 48 + 52) as u8)
    } else if c == '-' || c == '+' {
        Some(62u8)
    } else if c == '_' || c == '/' {
        Some(63u8)
    } else {
        None
    }
}

/// The base64url character carrying the six-bit value `d`.
pub open spec fn b64_char_of(d: u8) -> char {
    if d < 26 {
        ((d + 65) as u32) as char
    } else if d < 52 {
        ((d - 26 + 97) as u32) as char
    } else if d < 62 {
        ((d - 52 + 48) as u32) as char
    } else if d == 62 {
        '-'
    } else {
        '_'
    }
}

/// How many trailing `=` characters the segment carries.
pub open spec fn trailing_eq_count(s: Seq<char>) -> int
    decreases s.len(),
{
    if s.len() > 0 && s[s.len() - 1] == '=' {
        1 + trailing_eq_count(s.drop_last())
    } else {
        0
    }
}

/// The segment with its trailing `=` padding removed.
pub open spec fn strip_padding(s: Seq<char>) -> Seq<char> {
    s.take(s.len() - trailing_eq_count(s))
}

/// Whether every character of `s` is in the base64url alphabet.
pub open spec fn all_b64(s: Seq<char>) -> bool {
    forall|i: int| 0 <= i < s.len() ==> #[trigger] b64_digit_of(s[i]) is Some
}

/// The six-bit values of an all-alphabet segment.
pub open spec fn digits_of(s: Seq<char>) -> Seq<u8> {
    Seq::new(s.len(), |i: int| b64_digit_of(s[i]).unwrap())
}

/// How many bytes `n` six-bit digits decode to: three per full group of
/// four, one more for a trailing pair, two more for a trailing triple.
pub open spec fn decoded_len(n: int) -> int {
    n / 4 * 3 + if n % 4 == 2 {
        1int
    } else if n % 4 == 3 {
        2int
    } else {
        0int
    }
}

/// Byte `j` of the decoding of `digits`: each group of four six-bit
/// digits carries three bytes, high bits first.
pub open spec fn byte_at(digits: Seq<u8>, j: int) -> u8 {
    let q = j / 3;
    let r = j % 3;
    if r == 0 {
        ((digits[4 * q] as int) * 4 + (digits[4 * q + 1] as int) / 16) as u8
    } else if r == 1 {
        ((digits[4 * q + 1] as int) % 16 * 16 + (digits[4 * q + 2] as int) / 4) as u8
    } else {
        ((digits[4 * q + 2] as int) % 4 * 64 + (digits[4 * q + 3] as int)) as u8
    }
}

/// The bytes a digit sequence decodes to. Bits of a trailing partial
/// group that do not fill a byte are dropped, as a lenient decoder does.
pub open spec fn bytes_of(digits: Seq<u8>) -> Seq<u8> {
    Seq::new(decoded_len(digits.len() as int) as nat, |j: int| byte_at(digits, j))
}

/// The decoding of one unpadded-or-padded base64url segment.
///
/// A raw length of remainder 1 modulo 4 is rejected as an illegal
/// length. After trailing padding is stripped, a character outside the
/// alphabet — which includes `=` anywhere but at the end — is rejected,
/// and so is a stripped length of remainder 1, which padding can never
/// restore to a full group.
pub open spec fn spec_b64url_decode(s: Seq<char>) -> Result<Seq<u8>, DecodeError> {
    if s.len() % 4 == 1 {
        Err(DecodeError::IllegalLength)
    } else {
        let t = strip_padding(s);
        if !all_b64(t) || t.len() % 4 == 1 {
            Err(DecodeError::BadAlphabet)
        } else {
            Ok(bytes_of(digits_of(t)))
        }
    }
}

/// How many six-bit digits `m` bytes encode to.
pub open spec fn encoded_len(m: int) -> int {
    m / 3 * 4 + if m % 3 == 1 {
        2int
    } else if m % 3 == 2 {
        3int
    } else {
        0int
    }
}

/// Digit `k` of the encoding of `bytes`: each group of three bytes is
/// spread over four six-bit digits, high bits first. The final digit of
/// a partial group carries zero in its unused low bits.
pub open spec fn digit_at(bytes: Seq<u8>, k: int) -> u8 {
    let q = k / 4;
    let r = k % 4;
    if r == 0 {
        ((bytes[3 * q] as int) / 4) as u8
    } else if r == 1 {
        if 3 * q + 1 < bytes.len() {
            ((bytes[3 * q] as int) % 4 * 16 + (bytes[3 * q + 1] as int) / 16) as u8
        } else {
            ((bytes[3 * q] as int) % 4 * 16) as u8
        }
    } else if r == 2 {
        if 3 * q + 2 < bytes.len() {
            ((bytes[3 * q + 1] as int) % 16 * 4 + (bytes[3 * q + 2] as int) / 64) as u8
        } else {
            ((bytes[3 * q + 1] as int) % 16 * 4) as u8
        }
    } else {
        ((bytes[3 * q + 2] as int) % 64) as u8
    }
}

/// The unpadded base64url encoding of a byte sequence.
pub open spec fn spec_b64url_encode(bytes: Seq<u8>) -> Seq<char> {
    Seq::new(encoded_len(bytes.len() as int) as nat, |k: int| b64_char_of(digit_at(bytes, k)))
}

/// Every six-bit value is below 64.
proof fn lemma_b64_digit_bound(c: char)
    ensures
        b64_digit_of(c) matches Some(d) ==> d < 64,
{
}

/// The alphabet map inverts the six-bit map, and never yields a dot or
/// a padding character.
proof fn lemma_b64_alphabet(d: u8)
    requires
        d < 64,
    ensures
        b64_digit_of(b64_char_of(d)) == Some(d),
        b64_char_of(d) != '.',
        b64_char_of(d) != '=',
{
    if d < 26 {
        assert((((d + 65) as u32) as char) as u32 == d + 65);
    } else if d < 52 {
        assert((((d - 26 + 97) as u32) as char) as u32 == d - 26 + 97);
    } else if d < 62 {
        assert((((d - 52 + 48) as u32) as char) as u32 == d - 52 + 48);
    }
}

/// Every encoded digit is a six-bit value.
pub proof fn lemma_digit_at_bound(bytes: Seq<u8>, k: int)
    ensures
        digit_at(bytes, k) < 64,
{
}

/// The characters an encoder emits: alphabet characters only, never a
/// dot and never padding, and never a length of remainder 1 modulo 4.
pub proof fn lemma_b64url_encode_shape(bytes: Seq<u8>)
    ensures
        spec_b64url_encode(bytes).len() == encoded_len(bytes.len() as int),
        spec_b64url_encode(bytes).len() % 4 != 1,
        all_b64(spec_b64url_encode(bytes)),
        forall|i: int|
            0 <= i < spec_b64url_encode(bytes).len() ==> #[trigger] spec_b64url_encode(bytes)[i]
                != '.' && spec_b64url_encode(bytes)[i] != '=',
        digits_of(spec_b64url_encode(bytes)) =~= Seq::new(
            encoded_len(bytes.len() as int) as nat,
            |k: int| digit_at(bytes, k),
        ),
{
    let m = bytes.len() as int;
    let n = encoded_len(m);
    let enc = spec_b64url_encode(bytes);
    assert(n % 4 == (if m % 3 == 1 { 2int } else if m % 3 == 2 { 3int } else { 0int }))
        by (nonlinear_arith)
        requires
            n == m / 3 * 4 + (if m % 3 == 1 { 2int } else if m % 3 == 2 { 3int } else { 0int }),
            m >= 0;
    assert forall|i: int| 0 <= i < enc.len() implies b64_digit_of(#[trigger] enc[i]) == Some(
        digit_at(bytes, i),
    ) && enc[i] != '.' && enc[i] != '=' by {
        lemma_digit_at_bound(bytes, i);
        lemma_b64_alphabet(digit_at(bytes, i));
    }
}

proof fn lemma_byte_reconstruct(bytes: Seq<u8>, j: int)
    requires
        0 <= j < bytes.len(),
    ensures
        byte_at(
            Seq::new(encoded_len(bytes.len() as int) as nat, |k: int| digit_at(bytes, k)),
            j,
        ) == bytes[j],
{
    let m = bytes.len() as int;
    let n = encoded_len(m);
    let dig = Seq::new(n as nat, |k: int| digit_at(bytes, k));
    let q = j / 3;
    let r = j % 3;
    let e = if m % 3 == 1 { 2int } else if m % 3 == 2 { 3int } else { 0int };
    assert(j == 3 * q + r && 0 <= r < 3) by (nonlinear_arith)
        requires
            q == j / 3,
            r == j % 3,
            j >= 0;
    assert(m == 3 * (m / 3) + m % 3 && 0 <= m % 3 < 3) by (nonlinear_arith)
        requires
            m >= 0;
    assert(4 * q + (if r == 0 { 1int } else if r == 1 { 2int } else { 3int }) < n)
        by (nonlinear_arith)
        requires
            q == j / 3,
            r == j % 3,
            j == 3 * q + r,
            0 <= r < 3,
            0 <= j < m,
            m == 3 * (m / 3) + m % 3,
            0 <= m % 3 < 3,
            n == m / 3 * 4 + e,
            e == if m % 3 == 1 { 2int } else if m % 3 == 2 { 3int } else { 0int };
    assert((4 * q) / 4 == q && (4 * q) % 4 == 0 && (4 * q + 1) / 4 == q && (4 * q + 1) % 4 == 1
        && (4 * q + 2) / 4 == q && (4 * q + 2) % 4 == 2 && (4 * q + 3) / 4 == q && (4 * q + 3) % 4
        == 3) by (nonlinear_arith)
        requires
            q >= 0;
    let b0 = bytes[3 * q] as int;
    if r == 0 {
        assert(dig[4 * q] == digit_at(bytes, 4 * q));
        assert(dig[4 * q + 1] == digit_at(bytes, 4 * q + 1));
        let x = if 3 * q + 1 < m { (bytes[3 * q + 1] as int) / 16 } else { 0int };
        assert(0 <= x < 16);
        assert((b0 % 4 * 16 + x) / 16 == b0 % 4) by (nonlinear_arith)
            requires
                0 <= x < 16,
                0 <= b0 % 4;
        assert(b0 / 4 * 4 + b0 % 4 == b0) by (nonlinear_arith)
            requires
                b0 >= 0;
        assert(byte_at(dig, j) == bytes[j]);
    } else if r == 1 {
        let b1 = bytes[3 * q + 1] as int;
        assert(dig[4 * q + 1] == digit_at(bytes, 4 * q + 1));
        assert(dig[4 * q + 2] == digit_at(bytes, 4 * q + 2));
        let x = if 3 * q + 2 < m { (bytes[3 * q + 2] as int) / 64 } else { 0int };
        assert(0 <= x < 4);
        assert((b0 % 4 * 16 + b1 / 16) % 16 == b1 / 16) by (nonlinear_arith)
            requires
                0 <= b1 / 16 < 16,
                0 <= b0 % 4;
        assert((b1 % 16 * 4 + x) / 4 == b1 % 16) by (nonlinear_arith)
            requires
                0 <= x < 4,
                0 <= b1 % 16;
        assert(b1 / 16 * 16 + b1 % 16 == b1) by (nonlinear_arith)
            requires
                b1 >= 0;
        assert(byte_at(dig, j) == bytes[j]);
    } else {
        let b1 = bytes[3 * q + 1] as int;
        let b2 = bytes[3 * q + 2] as int;
        assert(dig[4 * q + 2] == digit_at(bytes, 4 * q + 2));
        assert(dig[4 * q + 3] == digit_at(bytes, 4 * q + 3));
        assert((b1 % 16 * 4 + b2 / 64) % 4 == b2 / 64) by (nonlinear_arith)
            requires
                0 <= b2 / 64 < 4,
                0 <= b1 % 16;
        assert(b2 / 64 * 64 + b2 % 64 == b2) by (nonlinear_arith)
            requires
                b2 >= 0;
        assert(byte_at(dig, j) == bytes[j]);
    }
}

/// Decoding inverts encoding: a decoder fed an encoder's output hands
/// back exactly the bytes that went in.
pub proof fn lemma_b64url_round_trip(bytes: Seq<u8>)
    ensures
        spec_b64url_decode(spec_b64url_encode(bytes)) == Ok::<Seq<u8>, DecodeError>(bytes),
{
    let m = bytes.len() as int;
    let n = encoded_len(m);
    let enc = spec_b64url_encode(bytes);
    let e = if m % 3 == 1 { 2int } else if m % 3 == 2 { 3int } else { 0int };
    lemma_b64url_encode_shape(bytes);
    lemma_trailing_eq(enc, enc.len() as int);
    assert(strip_padding(enc) =~= enc);
    assert(m == 3 * (m / 3) + m % 3 && 0 <= m % 3 < 3) by (nonlinear_arith)
        requires
            m >= 0;
    assert(n / 4 == m / 3 && n % 4 == e) by (nonlinear_arith)
        requires
            n == m / 3 * 4 + e,
            0 <= e < 4,
            m / 3 >= 0,
            e == if m % 3 == 1 { 2int } else if m % 3 == 2 { 3int } else { 0int };
    assert(decoded_len(n) == m);
    let dig = Seq::new(n as nat, |k: int| digit_at(bytes, k));
    assert(digits_of(enc) =~= dig);
    assert(bytes_of(dig).len() == m);
    assert forall|j: int| 0 <= j < m implies bytes_of(dig)[j] == bytes[j] by {
        lemma_byte_reconstruct(bytes, j);
    }
    assert(bytes_of(digits_of(strip_padding(enc))) =~= bytes);
    assert(spec_b64url_decode(enc) == Ok::<Seq<u8>, DecodeError>(bytes));
}

proof fn lemma_trailing_eq(s: Seq<char>, end: int)
    requires
        0 <= end <= s.len(),
        forall|i: int| end <= i < s.len() ==> s[i] == '=',
        end > 0 ==> s[end - 1] != '=',
    ensures
        trailing_eq_count(s) == s.len() - end,
    decreases s.len(),
{
    if s.len() > 0 && s[s.len() - 1] == '=' {
        assert(end < s.len());
        lemma_trailing_eq(s.drop_last(), end);
    }
}

/// The six-bit value of one character, or `None` outside the alphabet.
pub fn b64_digit(c: char) -> (r: Option<u8>)
    ensures
        r == b64_digit_of(c),
{
    let u = c as u32;
    if 65 <= u && u <= 90 {
        Some((u - 65) as u8)
    } else if 97 <= u && u <= 122 {
        Some((u - 97 + 26) as u8)
    } else if 48 <= u && u <= 57 {
        Some((u - 48 + 52) as u8)
    } else if c == '-' || c == '+' {
        Some(62)
    } else if c == '_' || c == '/' {
        Some(63)
    } else {
        None
    }
}

/// Decode one base64url segment, exactly as [`spec_b64url_decode`] says.
pub fn b64url_decode(seg: &Vec<char>) -> (r: Result<Vec<u8>, DecodeError>)
    ensures
        r matches Ok(v) ==> spec_b64url_decode(seg@) matches Ok(b) && v@ == b,
        r matches Err(e) ==> spec_b64url_decode(seg@) matches Err(e2) && e == e2,
{
    let n = seg.len();
    if n % 4 == 1 {
        return Err(DecodeError::IllegalLength);
    }
    let mut end: usize = n;
    while end > 0 && seg[end - 1] == '='
        invariant
            end <= n,
            n == seg.len(),
            forall|i: int| end <= i < n ==> seg@[i] == '=',
        decreases end,
    {
        end = end - 1;
    }
    proof {
        lemma_trailing_eq(seg@, end as int);
        assert(strip_padding(seg@) =~= seg@.take(end as int));
    }
    let ghost t = strip_padding(seg@);
    let mut digits: Vec<u8> = Vec::new();
    let mut i: usize = 0;
    while i < end
        invariant
            i <= end <= n,
            n == seg.len(),
            n % 4 != 1,
            t == seg@.take(end as int),
            t == strip_padding(seg@),
            digits@.len() == i,
            forall|k: int| 0 <= k < i ==> b64_digit_of(t[k]) == Some(digits@[k]),
            forall|k: int| 0 <= k < i ==> digits@[k] < 64,
        decreases end - i,
    {
        match b64_digit(seg[i]) {
            Some(d) => {
                proof {
                    lemma_b64_digit_bound(seg@[i as int]);
                }
                digits.push(d);
            },
            None => {
                proof {
                    assert(b64_digit_of(t[i as int]) is None);
                    assert(!all_b64(t));
                }
                return Err(DecodeError::BadAlphabet);
            },
        }
        i = i + 1;
    }
    if end % 4 == 1 {
        return Err(DecodeError::BadAlphabet);
    }
    proof {
        assert(all_b64(t));
        assert(digits@ =~= digits_of(t));
    }
    let m: usize = end / 4 * 3 + if end % 4 == 2 {
        1
    } else if end % 4 == 3 {
        2
    } else {
        0
    };
    proof {
        assert(m == decoded_len(t.len() as int));
    }
    let mut bytes: Vec<u8> = Vec::new();
    let mut j: usize = 0;
    while j < m
        invariant
            j <= m,
            m == decoded_len(digits@.len() as int),
            digits@.len() <= usize::MAX,
            digits@.len() % 4 != 1,
            digits@ == digits_of(t),
            forall|k: int| 0 <= k < digits@.len() ==> digits@[k] < 64,
            bytes@.len() == j,
            forall|k: int| 0 <= k < j ==> bytes@[k] == byte_at(digits@, k),
        decreases m - j,
    {
        let q = j / 3;
        let r = j % 3;
        proof {
            let nd = digits@.len() as int;
            assert(j == 3 * (j / 3) + j % 3) by (nonlinear_arith)
                requires j >= 0;
            assert(nd == 4 * (nd / 4) + nd % 4) by (nonlinear_arith)
                requires nd >= 0;
            assert((j as int) < nd / 4 * 3 + if nd % 4 == 2 { 1int } else if nd % 4 == 3 { 2int } else { 0int });
            assert(4 * (q as int) + (if r == 0 { 1int } else if r == 1 { 2int } else { 3int }) < nd) by (nonlinear_arith)
                requires
                    q == (j as int) / 3,
                    r == (j as int) % 3,
                    j == 3 * (q as int) + (r as int),
                    0 <= r < 3,
                    nd == 4 * (nd / 4) + nd % 4,
                    0 <= nd % 4 < 4,
                    nd % 4 != 1,
                    (j as int) < nd / 4 * 3 + if nd % 4 == 2 { 1int } else if nd % 4 == 3 { 2int } else { 0int };
            assert(r == 0 ==> 4 * (q as int) + 1 < digits@.len());
            assert(r == 1 ==> 4 * (q as int) + 2 < digits@.len());
            assert(r == 2 ==> 4 * (q as int) + 3 < digits@.len());
        }
        let b: u8 = if r == 0 {
            digits[4 * q] * 4 + digits[4 * q + 1] / 16
        } else if r == 1 {
            digits[4 * q + 1] % 16 * 16 + digits[4 * q + 2] / 4
        } else {
            digits[4 * q + 2] % 4 * 64 + digits[4 * q + 3]
        };
        proof {
            assert(b == byte_at(digits@, j as int));
        }
        bytes.push(b);
        j = j + 1;
    }
    proof {
        assert(bytes@ =~= bytes_of(digits_of(t)));
    }
    Ok(bytes)
}

} // verus!
