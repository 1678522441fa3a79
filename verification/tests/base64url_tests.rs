use auth_session::base64url::b64url_decode;
use auth_session::model::DecodeError;

fn chars(s: &str) -> Vec<char> {
    let mut v = Vec::new();
    for c in s.chars() {
        v.push(c);
    }
    v
}

#[test]
fn decodes_known_values() {
    assert_eq!(b64url_decode(&chars("")).unwrap(), Vec::<u8>::new());
    assert_eq!(b64url_decode(&chars("TQ")).unwrap(), b"M".to_vec());
    assert_eq!(b64url_decode(&chars("TWE")).unwrap(), b"Ma".to_vec());
    assert_eq!(b64url_decode(&chars("TWFu")).unwrap(), b"Man".to_vec());
    assert_eq!(b64url_decode(&chars("e30")).unwrap(), b"{}".to_vec());
}

#[test]
fn url_and_standard_alphabets_agree() {
    // 0xFB 0xEF is "++8" in the standard alphabet and "--8" url-safe
    assert_eq!(b64url_decode(&chars("--8")).unwrap(), vec![0xFBu8, 0xEF]);
    assert_eq!(b64url_decode(&chars("++8")).unwrap(), vec![0xFBu8, 0xEF]);
    assert_eq!(b64url_decode(&chars("_w")).unwrap(), vec![0xFFu8]);
    assert_eq!(b64url_decode(&chars("/w")).unwrap(), vec![0xFFu8]);
}

#[test]
fn tolerates_trailing_padding() {
    assert_eq!(b64url_decode(&chars("TQ==")).unwrap(), b"M".to_vec());
    assert_eq!(b64url_decode(&chars("TWE=")).unwrap(), b"Ma".to_vec());
}

#[test]
fn rejects_remainder_one() {
    assert!(matches!(b64url_decode(&chars("AAAAA")), Err(DecodeError::IllegalLength)));
    assert!(matches!(b64url_decode(&chars("A")), Err(DecodeError::IllegalLength)));
}

#[test]
fn rejects_foreign_characters() {
    assert!(matches!(b64url_decode(&chars("ab!c")), Err(DecodeError::BadAlphabet)));
    assert!(matches!(b64url_decode(&chars("a=bc")), Err(DecodeError::BadAlphabet)));
    assert!(matches!(b64url_decode(&chars("A===")), Err(DecodeError::BadAlphabet)));
}
