use deadair::session::{clear_cookie_header, extract_cookie, set_cookie_header, sign_cookie, verify_cookie};

const SECRET: &[u8] = b"test-secret-key-for-deadair";

#[test]
fn sign_and_verify() {
    let cookie = sign_cookie("user123", SECRET);
    assert!(cookie.starts_with("user123."));
    let result = verify_cookie(&cookie, SECRET);
    assert_eq!(result, Some("user123".to_string()));
}

#[test]
fn reject_tampered() {
    let cookie = sign_cookie("user123", SECRET);
    let tampered = cookie.replace("user123", "admin");
    assert_eq!(verify_cookie(&tampered, SECRET), None);
}

#[test]
fn reject_wrong_secret() {
    let cookie = sign_cookie("user123", SECRET);
    assert_eq!(verify_cookie(&cookie, b"wrong-secret"), None);
}

#[test]
fn reject_garbage() {
    assert_eq!(verify_cookie("not-a-cookie", SECRET), None);
    assert_eq!(verify_cookie("", SECRET), None);
}

#[test]
fn extract_from_header() {
    let result = extract_cookie(Some("deadair_session=abc.xyz; other=val"), "deadair_session");
    assert_eq!(result, Some("abc.xyz".to_string()));
}

#[test]
fn extract_missing() {
    assert_eq!(extract_cookie(None, "deadair_session"), None);
}

#[test]
fn extract_later_and_trimmed_pieces() {
    let h = "theme=dark;   deadair_session=a=b \t; deadair_session=second";
    assert_eq!(extract_cookie(Some(h), "deadair_session"), Some("a=b".to_string()));
    assert_eq!(extract_cookie(Some(h), "theme"), Some("dark".to_string()));
    assert_eq!(extract_cookie(Some(h), "them"), None);
    assert_eq!(extract_cookie(Some(""), "theme"), None);
}

#[test]
fn signature_is_hmac_sha256_in_url_safe_base64() {
    let cookie = sign_cookie("user123", SECRET);
    let sig = cookie.strip_prefix("user123.").unwrap();
    // 32 bytes of HMAC-SHA256 take 43 base64 characters without padding
    assert_eq!(sig.len(), 43);
    assert!(sig.chars().all(|c| c.is_ascii_alphanumeric() || c == '-' || c == '_'));
    assert_ne!(sign_cookie("user124", SECRET), cookie);
}

#[test]
fn dotted_ids_do_not_verify() {
    let cookie = sign_cookie("first.last", SECRET);
    assert_eq!(verify_cookie(&cookie, SECRET), None);
}

#[test]
fn bad_base64_is_rejected() {
    assert_eq!(verify_cookie("user123.***", SECRET), None);
    assert_eq!(verify_cookie("user123.", SECRET), None);
}

#[test]
fn cookie_headers() {
    let h = set_cookie_header("user123", SECRET);
    let value = sign_cookie("user123", SECRET);
    assert_eq!(
        h,
        format!("deadair_session={}; Path=/; HttpOnly; SameSite=Lax; Max-Age=2592000", value)
    );
    assert_eq!(clear_cookie_header(), "deadair_session=; Path=/; HttpOnly; Max-Age=0");
}

#[test]
fn signature_is_43_characters() {
    let cookie = sign_cookie("user123", SECRET);
    let sig = &cookie["user123.".len()..];
    assert_eq!(sig.len(), 43);
    assert!(sig.chars().all(|c| c.is_ascii_alphanumeric() || c == '-' || c == '_'));
}

#[test]
fn reject_non_canonical_signature() {
    let cookie = sign_cookie("user123", SECRET);
    // the last character carries two unused bits; setting one of them keeps the bytes but is refused
    let last = cookie.chars().last().unwrap();
    let alphabet = "ABCDEFGHIJKLMNOPQRSTUVWXYZabcdefghijklmnopqrstuvwxyz0123456789-_";
    let v = alphabet.find(last).unwrap();
    let other = alphabet.chars().nth(v ^ 1).unwrap();
    let mut tampered = cookie.clone();
    tampered.pop();
    tampered.push(other);
    assert_eq!(verify_cookie(&tampered, SECRET), None);
    assert_eq!(verify_cookie(&cookie, SECRET), Some("user123".to_string()));
}
