//! Decoding a compact token into its claims.
//!
//! A token is three dot-separated base64url segments: header, payload,
//! signature. [`decode`] splits the token, base64url-decodes the
//! payload, reads it as UTF-8 text, parses that text as JSON, and
//! extracts the `permissions` field — an array of strings — from the
//! claims object. [`decode_header`] does the same for the header
//! segment, without asking for permissions. Every malformed input is
//! answered with the [`DecodeError`] that [`spec_decode`] names;
//! nothing panics past this boundary.

use vstd::prelude::*;
use vstd::utf8::{decode_utf8, valid_utf8};
use crate::base64url::spec_b64url_decode;
use crate::base64url::b64url_decode;
use crate::json::{JsonVal, JsonValue, spec_parse_json, parse_json};
use crate::model::DecodeError;
use crate::model::views_of;

verus! {

/// The claims carried by a token: the decoded JSON object and the
/// permission names taken from its `permissions` field.
pub struct Claims {
    pub fields: JsonValue,
    pub permissions: Vec<String>,
}

impl Claims {
    /// The permission vector is exactly what the claims object's
    /// `permissions` field holds.
    pub open spec fn wf(self) -> bool {
        perms_of(self.fields.model()) == Some(views_of(self.permissions@))
    }
}

/// The index of the first occurrence of `c`, if any.
pub open spec fn find_char(s: Seq<char>, c: char) -> Option<int>
    decreases s.len(),
{
    if s.len() == 0 {
        None
    } else if s[0] == c {
        Some(0)
    } else {
        match find_char(s.drop_first(), c) {
            Some(i) => Some(i + 1),
            None => None,
        }
    }
}

/// The three dot-separated segments of a token, or `None` where the
/// token has any other number of segments.
pub open spec fn split3(s: Seq<char>) -> Option<(Seq<char>, Seq<char>, Seq<char>)> {
    match find_char(s, '.') {
        None => None,
        Some(a) => {
            let rest = s.skip(a + 1);
            match find_char(rest, '.') {
                None => None,
                Some(b) => {
                    let sig = rest.skip(b + 1);
                    if find_char(sig, '.') is Some {
                        None
                    } else {
                        Some((s.take(a), rest.take(b), sig))
                    }
                },
            }
        },
    }
}

/// The characters of the key that carries the permission names.
pub open spec fn pkey() -> Seq<char> {
    seq!['p', 'e', 'r', 'm', 'i', 's', 's', 'i', 'o', 'n', 's']
}

/// The value under the first `permissions` key, if any.
pub open spec fn find_perms(kvs: Seq<(Seq<char>, JsonVal)>) -> Option<JsonVal>
    decreases kvs.len(),
{
    if kvs.len() == 0 {
        None
    } else if kvs[0].0 == pkey() {
        Some(kvs[0].1)
    } else {
        find_perms(kvs.drop_first())
    }
}

/// The contents of a sequence of string values, or `None` where some
/// member is not a string.
pub open spec fn str_items(vs: Seq<JsonVal>) -> Option<Seq<Seq<char>>>
    decreases vs.len(),
{
    if vs.len() == 0 {
        Some(Seq::empty())
    } else {
        match vs[0] {
            JsonVal::Str(t) => match str_items(vs.drop_first()) {
                Some(rest) => Some(seq![t] + rest),
                None => None,
            },
            _ => None,
        }
    }
}

/// The permission names of a claims value: it must be an object whose
/// first `permissions` field is an array of strings.
pub open spec fn perms_of(v: JsonVal) -> Option<Seq<Seq<char>>> {
    match v {
        JsonVal::Obj(kvs) => match find_perms(kvs) {
            Some(JsonVal::Arr(vs)) => str_items(vs),
            _ => None,
        },
        _ => None,
    }
}

/// What decoding a token means: split into exactly three segments,
/// base64url-decode the payload, read it as UTF-8, parse the text as
/// JSON, and extract the permission names — or the first error met.
pub open spec fn spec_decode(token: Seq<char>) -> Result<(JsonVal, Seq<Seq<char>>), DecodeError> {
    match split3(token) {
        None => Err(DecodeError::MalformedSegments),
        Some((hdr, payload, sig)) => match spec_b64url_decode(payload) {
            Err(e) => Err(e),
            Ok(bytes) => if !valid_utf8(bytes) {
                Err(DecodeError::BadUtf8)
            } else {
                match spec_parse_json(decode_utf8(bytes)) {
                    None => Err(DecodeError::BadJson),
                    Some(jv) => match perms_of(jv) {
                        None => Err(DecodeError::BadClaims),
                        Some(ps) => Ok((jv, ps)),
                    },
                }
            },
        },
    }
}

/// What decoding a token's header segment means: as [`spec_decode`],
/// on the first segment, without asking for permissions.
pub open spec fn spec_decode_header(token: Seq<char>) -> Result<JsonVal, DecodeError> {
    match split3(token) {
        None => Err(DecodeError::MalformedSegments),
        Some((hdr, payload, sig)) => match spec_b64url_decode(hdr) {
            Err(e) => Err(e),
            Ok(bytes) => if !valid_utf8(bytes) {
                Err(DecodeError::BadUtf8)
            } else {
                match spec_parse_json(decode_utf8(bytes)) {
                    None => Err(DecodeError::BadJson),
                    Some(jv) => Ok(jv),
                }
            },
        },
    }
}

/// A token whose payload carries the serialized claims: header, the
/// base64url encoding of the claims text's UTF-8 bytes, and signature,
/// joined by dots.
pub open spec fn encode_token(hdr: Seq<char>, claims: JsonVal, sig: Seq<char>) -> Seq<char> {
    hdr + seq!['.'] + crate::base64url::spec_b64url_encode(
        vstd::utf8::encode_utf8(crate::json::ser_json(claims)),
    ) + seq!['.'] + sig
}

proof fn lemma_find_char_absent(s: Seq<char>, c: char)
    requires
        !s.contains(c),
    ensures
        find_char(s, c) is None,
    decreases s.len(),
{
    if s.len() > 0 {
        assert(s[0] != c);
        assert(!s.drop_first().contains(c)) by {
            if s.drop_first().contains(c) {
                let i = choose|i: int| 0 <= i < s.drop_first().len() && s.drop_first()[i] == c;
                assert(s[i + 1] == c);
            }
        }
        lemma_find_char_absent(s.drop_first(), c);
    }
}

proof fn lemma_find_char_concat(a: Seq<char>, rest: Seq<char>, c: char)
    requires
        !a.contains(c),
    ensures
        find_char(a + seq![c] + rest, c) == Some(a.len() as int),
    decreases a.len(),
{
    let s = a + seq![c] + rest;
    if a.len() == 0 {
        assert(s[0] == c);
    } else {
        assert(s[0] == a[0]);
        assert(a.contains(a[0]));
        assert(s[0] != c);
        assert(!a.drop_first().contains(c)) by {
            if a.drop_first().contains(c) {
                let i = choose|i: int| 0 <= i < a.drop_first().len() && a.drop_first()[i] == c;
                assert(a[i + 1] == c);
            }
        }
        assert(s.drop_first() =~= a.drop_first() + seq![c] + rest);
        lemma_find_char_concat(a.drop_first(), rest, c);
    }
}

/// Splitting a three-segment token recovers its segments, provided
/// neither the header nor the signature carries a dot and the payload
/// is base64url text.
proof fn lemma_split3_encode(hdr: Seq<char>, payload: Seq<char>, sig: Seq<char>)
    requires
        !hdr.contains('.'),
        !payload.contains('.'),
        !sig.contains('.'),
    ensures
        split3(hdr + seq!['.'] + payload + seq!['.'] + sig) == Some((hdr, payload, sig)),
{
    let token = hdr + seq!['.'] + payload + seq!['.'] + sig;
    assert(token =~= hdr + seq!['.'] + (payload + seq!['.'] + sig));
    lemma_find_char_concat(hdr, payload + seq!['.'] + sig, '.');
    let a = hdr.len() as int;
    let rest = token.skip(a + 1);
    assert(rest =~= payload + seq!['.'] + sig);
    lemma_find_char_concat(payload, sig, '.');
    let b = payload.len() as int;
    assert(rest.skip(b + 1) =~= sig);
    lemma_find_char_absent(sig, '.');
    assert(token.take(a) =~= hdr);
    assert(rest.take(b) =~= payload);
}

/// Decoding inverts encoding: a token whose payload is the serialized
/// claims decodes to exactly those claims and the permission names
/// they carry. The header and signature segments may be anything
/// without a dot; the payload segment itself never holds one.
pub proof fn lemma_decode_round_trip(hdr: Seq<char>, claims: JsonVal, sig: Seq<char>)
    requires
        crate::json::wf_json(claims),
        perms_of(claims) is Some,
        !hdr.contains('.'),
        !sig.contains('.'),
    ensures
        spec_decode(encode_token(hdr, claims, sig)) == Ok::<_, DecodeError>(
            (claims, perms_of(claims).unwrap()),
        ),
{
    let text = crate::json::ser_json(claims);
    let bytes = vstd::utf8::encode_utf8(text);
    let payload = crate::base64url::spec_b64url_encode(bytes);
    crate::base64url::lemma_b64url_encode_shape(bytes);
    assert(!payload.contains('.')) by {
        if payload.contains('.') {
            let i = choose|i: int| 0 <= i < payload.len() && payload[i] == '.';
        }
    }
    lemma_split3_encode(hdr, payload, sig);
    assert(encode_token(hdr, claims, sig) =~= hdr + seq!['.'] + payload + seq!['.'] + sig);
    crate::base64url::lemma_b64url_round_trip(bytes);
    vstd::utf8::encode_utf8_valid_utf8(text);
    vstd::utf8::encode_utf8_decode_utf8(text);
    crate::json::lemma_parse_json_ser(claims);
}

/// A payload segment whose length leaves remainder 1 modulo 4 never
/// decodes: the token is answered with the illegal-length error, for
/// any three-segment token.
pub proof fn lemma_payload_remainder_rejected(token: Seq<char>)
    requires
        split3(token) matches Some((hdr, payload, sig)) && payload.len() % 4 == 1,
    ensures
        spec_decode(token) == Err::<(JsonVal, Seq<Seq<char>>), DecodeError>(
            DecodeError::IllegalLength,
        ),
{
}

/// Copy the characters of a string into a vector.
fn str_chars(s: &str) -> (v: Vec<char>)
    ensures
        v@ == s@,
{
    let n = s.unicode_len();
    let mut v: Vec<char> = Vec::new();
    let mut k: usize = 0;
    while k < n
        invariant
            k <= n,
            n == s@.len(),
            v@ == s@.take(k as int),
        decreases n - k,
    {
        v.push(s.get_char(k));
        proof {
            assert(s@.take(k as int).push(s@[k as int]) =~= s@.take(k as int + 1));
        }
        k = k + 1;
    }
    proof {
        assert(s@.take(n as int) =~= s@);
    }
    v
}

/// Copy one segment of a character vector.
fn subvec(v: &Vec<char>, from: usize, to: usize) -> (r: Vec<char>)
    requires
        from <= to <= v.len(),
    ensures
        r@ == v@.subrange(from as int, to as int),
{
    let mut r: Vec<char> = Vec::new();
    let mut k: usize = from;
    while k < to
        invariant
            from <= k <= to <= v.len(),
            r@ == v@.subrange(from as int, k as int),
        decreases to - k,
    {
        r.push(v[k]);
        proof {
            assert(v@.subrange(from as int, k as int).push(v@[k as int]) =~= v@.subrange(
                from as int,
                k as int + 1,
            ));
        }
        k = k + 1;
    }
    r
}

fn e_find_char(v: &Vec<char>, from: usize, c: char) -> (r: Option<usize>)
    requires
        from <= v.len(),
    ensures
        r matches Some(k) ==> from <= k < v.len() && find_char(v@.skip(from as int), c) == Some(
            k - from as int,
        ),
        r is None ==> find_char(v@.skip(from as int), c) is None,
{
    let mut k: usize = from;
    while k < v.len() && v[k] != c
        invariant
            from <= k <= v.len(),
            find_char(v@.skip(from as int), c) == (match find_char(v@.skip(k as int), c) {
                Some(d) => Some(d + (k - from)),
                None => None::<int>,
            }),
        decreases v.len() - k,
    {
        proof {
            assert(v@.skip(k as int).drop_first() =~= v@.skip(k as int + 1));
        }
        k = k + 1;
    }
    if k < v.len() {
        Some(k)
    } else {
        None
    }
}

proof fn lemma_views_push(ss: Seq<String>, x: String)
    ensures
        views_of(ss.push(x)) =~= views_of(ss) + seq![x@],
{
}

fn e_extract_perms(fields: &Vec<(String, JsonValue)>) -> (r: Option<usize>)
    ensures
        r matches Some(k) ==> k < fields.len() && crate::json::field_models_of(fields@).len()
            == fields@.len() && find_perms(crate::json::field_models_of(fields@)) == Some(
            fields@[k as int].1.model(),
        ),
        r is None ==> find_perms(crate::json::field_models_of(fields@)) is None,
{
    let ghost fms = crate::json::field_models_of(fields@);
    let pk: String = "permissions".to_owned();
    proof {
        reveal_strlit("permissions");
        assert(pk@ =~= pkey());
        assert(fms.skip(0) =~= fms);
    }
    let mut k: usize = 0;
    while k < fields.len() && !(fields[k].0 == pk)
        invariant
            k <= fields.len(),
            pk@ == pkey(),
            fms == crate::json::field_models_of(fields@),
            find_perms(fms) == find_perms(fms.skip(k as int)),
        decreases fields.len() - k,
    {
        proof {
            assert(fms.skip(k as int)[0] == fms[k as int]);
            assert(fms.skip(k as int).drop_first() =~= fms.skip(k as int + 1));
        }
        k = k + 1;
    }
    if k < fields.len() {
        proof {
            assert(fms.skip(k as int)[0] == fms[k as int]);
        }
        Some(k)
    } else {
        proof {
            assert(fms.skip(k as int).len() == 0);
        }
        None
    }
}

fn e_str_items(items: &Vec<JsonValue>) -> (r: Option<Vec<String>>)
    ensures
        r matches Some(ss) ==> str_items(crate::json::models_of(items@)) == Some(views_of(ss@)),
        r is None ==> str_items(crate::json::models_of(items@)) is None,
{
    let ghost ms = crate::json::models_of(items@);
    let mut acc: Vec<String> = Vec::new();
    proof {
        assert(ms.skip(0) =~= ms);
        match str_items(ms) {
            Some(rest) => {
                assert(views_of(Seq::<String>::empty()) + rest =~= rest);
            },
            None => {},
        }
    }
    let mut k: usize = 0;
    while k < items.len()
        invariant
            k <= items.len(),
            ms == crate::json::models_of(items@),
            str_items(ms) == (match str_items(ms.skip(k as int)) {
                Some(rest) => Some::<Seq<Seq<char>>>(views_of(acc@) + rest),
                None => None,
            }),
        decreases items.len() - k,
    {
        proof {
            assert(ms.skip(k as int)[0] == ms[k as int]);
            assert(ms.skip(k as int).drop_first() =~= ms.skip(k as int + 1));
        }
        match &items[k] {
            JsonValue::Str(s) => {
                proof {
                    lemma_views_push(acc@, *s);
                    match str_items(ms.skip(k as int + 1)) {
                        Some(rest) => {
                            assert(views_of(acc@) + (seq![s@] + rest) =~= views_of(
                                acc@.push(*s),
                            ) + rest);
                        },
                        None => {},
                    }
                }
                let c = s.clone();
                acc.push(c);
            },
            _ => {
                return None;
            },
        }
        k = k + 1;
    }
    proof {
        assert(ms.skip(k as int).len() == 0);
        assert(views_of(acc@) + Seq::<Seq<char>>::empty() =~= views_of(acc@));
    }
    Some(acc)
}

/// The permission names of a parsed claims value, as [`perms_of`]
/// says: the value must be an object whose first `permissions` field
/// is an array of strings.
pub fn json_perms(jv: &JsonValue) -> (r: Option<Vec<String>>)
    ensures
        r matches Some(ss) ==> perms_of(jv.model()) == Some(views_of(ss@)),
        r is None ==> perms_of(jv.model()) is None,
{
    match jv {
        JsonValue::Obj(fields) => {
            proof {
                crate::json::lemma_obj_model(*fields);
            }
            match e_extract_perms(fields) {
                None => None,
                Some(k) => match &fields[k].1 {
                    JsonValue::Arr(items) => {
                        proof {
                            crate::json::lemma_arr_model(*items);
                        }
                        e_str_items(items)
                    },
                    _ => None,
                },
            }
        },
        _ => None,
    }
}

/// Decode a token into its claims, exactly as [`spec_decode`] says.
pub fn decode(token: &str) -> (r: Result<Claims, DecodeError>)
    ensures
        r matches Ok(c) ==> c.wf() && spec_decode(token@) == Ok::<_, DecodeError>(
            (c.fields.model(), views_of(c.permissions@)),
        ),
        r matches Err(e) ==> spec_decode(token@) matches Err(e2) && e == e2,
{
    let v = str_chars(token);
    proof {
        assert(v@.skip(0) =~= v@);
    }
    let a = match e_find_char(&v, 0, '.') {
        None => {
            return Err(DecodeError::MalformedSegments);
        },
        Some(a) => a,
    };
    let ghost rest = v@.skip(a as int + 1);
    let b = match e_find_char(&v, a + 1, '.') {
        None => {
            return Err(DecodeError::MalformedSegments);
        },
        Some(b) => b,
    };
    proof {
        assert(rest.skip((b - a) as int) =~= v@.skip(b as int + 1));
    }
    match e_find_char(&v, b + 1, '.') {
        Some(_) => {
            return Err(DecodeError::MalformedSegments);
        },
        None => {},
    }
    let payload = subvec(&v, a + 1, b);
    proof {
        assert(rest.take((b - (a + 1)) as int) =~= v@.subrange(a as int + 1, b as int));
    }
    let bytes = match b64url_decode(&payload) {
        Err(e) => {
            return Err(e);
        },
        Ok(x) => x,
    };
    let ghost gb = bytes@;
    let text = match crate::text::utf8_to_string(bytes) {
        None => {
            return Err(DecodeError::BadUtf8);
        },
        Some(s) => s,
    };
    let chars = str_chars(text.as_str());
    let jv = match parse_json(&chars) {
        None => {
            return Err(DecodeError::BadJson);
        },
        Some(jv) => jv,
    };
    match json_perms(&jv) {
        None => Err(DecodeError::BadClaims),
        Some(ss) => Ok(Claims { fields: jv, permissions: ss }),
    }
}

/// Decode a token's header segment, exactly as [`spec_decode_header`]
/// says.
pub fn decode_header(token: &str) -> (r: Result<JsonValue, DecodeError>)
    ensures
        r matches Ok(jv) ==> spec_decode_header(token@) == Ok::<_, DecodeError>(jv.model()),
        r matches Err(e) ==> spec_decode_header(token@) matches Err(e2) && e == e2,
{
    let v = str_chars(token);
    proof {
        assert(v@.skip(0) =~= v@);
    }
    let a = match e_find_char(&v, 0, '.') {
        None => {
            return Err(DecodeError::MalformedSegments);
        },
        Some(a) => a,
    };
    let ghost rest = v@.skip(a as int + 1);
    let b = match e_find_char(&v, a + 1, '.') {
        None => {
            return Err(DecodeError::MalformedSegments);
        },
        Some(b) => b,
    };
    proof {
        assert(rest.skip((b - a) as int) =~= v@.skip(b as int + 1));
    }
    match e_find_char(&v, b + 1, '.') {
        Some(_) => {
            return Err(DecodeError::MalformedSegments);
        },
        None => {},
    }
    let hdr = subvec(&v, 0, a);
    proof {
        assert(v@.take(a as int) =~= v@.subrange(0, a as int));
    }
    let bytes = match b64url_decode(&hdr) {
        Err(e) => {
            return Err(e);
        },
        Ok(x) => x,
    };
    let text = match crate::text::utf8_to_string(bytes) {
        None => {
            return Err(DecodeError::BadUtf8);
        },
        Some(s) => s,
    };
    let chars = str_chars(text.as_str());
    match parse_json(&chars) {
        None => Err(DecodeError::BadJson),
        Some(jv) => Ok(jv),
    }
}

} // verus!
