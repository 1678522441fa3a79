use auth_session::claims::{decode, decode_header};
use auth_session::json::JsonValue;
use auth_session::model::DecodeError;

#[test]
fn decodes_read_permission_token() {
    let token = "eyJhbGciOiJIUzI1NiJ9.eyJwZXJtaXNzaW9ucyI6WyJyZWFkIl19.sig";
    let claims = decode(token).unwrap();
    assert_eq!(claims.permissions.len(), 1);
    assert_eq!(claims.permissions[0], "read");
}

#[test]
fn decodes_several_permissions_in_order() {
    // {"permissions":["read","write","admin"]}
    let token = "hdr.eyJwZXJtaXNzaW9ucyI6WyJyZWFkIiwid3JpdGUiLCJhZG1pbiJdfQ.sig";
    let claims = decode(token).unwrap();
    assert_eq!(claims.permissions, vec!["read", "write", "admin"]);
}

#[test]
fn tolerates_unknown_extra_fields() {
    // {"sub":"u1","permissions":["read"],"iat":15}
    let token = "h.eyJzdWIiOiJ1MSIsInBlcm1pc3Npb25zIjpbInJlYWQiXSwiaWF0IjoxNX0.s";
    let claims = decode(token).unwrap();
    assert_eq!(claims.permissions, vec!["read"]);
    match &claims.fields {
        JsonValue::Obj(fields) => assert_eq!(fields.len(), 3),
        _ => panic!("claims must be an object"),
    }
}

#[test]
fn rejects_two_segments() {
    let token = "eyJhbGciOiJIUzI1NiJ9.eyJwZXJtaXNzaW9ucyI6WyJyZWFkIl19";
    assert!(matches!(decode(token), Err(DecodeError::MalformedSegments)));
}

#[test]
fn rejects_four_segments() {
    let token = "a.b.c.d";
    assert!(matches!(decode(token), Err(DecodeError::MalformedSegments)));
}

#[test]
fn rejects_payload_with_remainder_one() {
    // the payload segment is 5 characters long: 5 % 4 == 1
    let token = "hdr.AAAAA.sig";
    assert!(matches!(decode(token), Err(DecodeError::IllegalLength)));
}

#[test]
fn rejects_payload_outside_alphabet() {
    let token = "hdr.e30*.sig";
    assert!(matches!(decode(token), Err(DecodeError::BadAlphabet)));
}

#[test]
fn rejects_payload_that_is_not_utf8() {
    // "_w" decodes to the single byte 0xFF, which no UTF-8 text holds
    let token = "hdr._w.sig";
    assert!(matches!(decode(token), Err(DecodeError::BadUtf8)));
}

#[test]
fn rejects_payload_that_is_not_json() {
    // "e30x" decodes to "{}1"
    let token = "hdr.e30x.sig";
    assert!(matches!(decode(token), Err(DecodeError::BadJson)));
}

#[test]
fn rejects_claims_without_permissions() {
    // {"sub":"u1"}
    let token = "hdr.eyJzdWIiOiJ1MSJ9.sig";
    assert!(matches!(decode(token), Err(DecodeError::BadClaims)));
}

#[test]
fn rejects_permissions_that_are_not_strings() {
    // {"permissions":[1]}
    let token = "hdr.eyJwZXJtaXNzaW9ucyI6WzFdfQ.sig";
    assert!(matches!(decode(token), Err(DecodeError::BadClaims)));
}

#[test]
fn rejects_claims_that_are_not_an_object() {
    // [1,2]
    let token = "hdr.WzEsMl0.sig";
    assert!(matches!(decode(token), Err(DecodeError::BadClaims)));
}

#[test]
fn accepts_padded_payload() {
    // "e30=" is "{}" with explicit padding; no permissions inside
    let token = "hdr.e30=.sig";
    assert!(matches!(decode(token), Err(DecodeError::BadClaims)));
}

#[test]
fn decodes_multibyte_permission_names() {
    // {"permissions":["héllo"]} — the payload bytes hold two-byte UTF-8
    let token = "h.eyJwZXJtaXNzaW9ucyI6WyJow6lsbG8iXX0.s";
    let claims = decode(token).unwrap();
    assert_eq!(claims.permissions, vec!["héllo"]);
}

#[test]
fn decodes_escaped_permission_names() {
    // {"permissions":["a\"b","cAd"]}
    let token = "h.eyJwZXJtaXNzaW9ucyI6WyJhXCJiIiwiY1x1MDA0MWQiXX0.s";
    let claims = decode(token).unwrap();
    assert_eq!(claims.permissions, vec!["a\"b", "cAd"]);
}

#[test]
fn first_permissions_field_wins() {
    // {"permissions":["a"],"permissions":["b"]}
    let token = "h.eyJwZXJtaXNzaW9ucyI6WyJhIl0sInBlcm1pc3Npb25zIjpbImIiXX0.s";
    let claims = decode(token).unwrap();
    assert_eq!(claims.permissions, vec!["a"]);
}

#[test]
fn header_mode_reads_first_segment() {
    let token = "eyJhbGciOiJIUzI1NiJ9.eyJwZXJtaXNzaW9ucyI6WyJyZWFkIl19.sig";
    let hdr = decode_header(token).unwrap();
    match hdr {
        JsonValue::Obj(fields) => {
            assert_eq!(fields.len(), 1);
            assert_eq!(fields[0].0, "alg");
            match &fields[0].1 {
                JsonValue::Str(s) => assert_eq!(s, "HS256"),
                _ => panic!("alg must be a string"),
            }
        },
        _ => panic!("header must be an object"),
    }
}

#[test]
fn header_mode_rejects_bad_header() {
    let token = "AAAAA.eyJwZXJtaXNzaW9ucyI6WyJyZWFkIl19.sig";
    assert!(matches!(decode_header(token), Err(DecodeError::IllegalLength)));
}
