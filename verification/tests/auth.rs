use deadair::auth::{
    code_from_redirect, display_name_of, login_response, plan_user_tasks, redirect_uri,
    with_refresh_token, CodeError, LoginParams, LoginResponse,
};
use deadair::auth::{csrf_state, csrf_state_at, refresh_request};
use base64::Engine;
use deadair::models::{TokenData, UserProfile};

#[test]
fn code_is_read_from_pasted_address() {
    assert_eq!(
        code_from_redirect("http://127.0.0.1:8080/callback?code=AQB%2Bx&state=s"),
        Ok("AQB+x".to_string())
    );
    assert_eq!(code_from_redirect("/callback?state=s&code=abc&code=def"), Ok("abc".to_string()));
    assert_eq!(code_from_redirect("http://localhost/callback?state=s"), Err(CodeError::NoCode));
    assert_eq!(code_from_redirect(":99999"), Err(CodeError::InvalidUrl));
}

#[test]
fn login_answers() {
    let manual = login_response("id", "http://h", "st", &LoginParams { manual: Some(true) });
    let plain = login_response("id", "http://h", "st", &LoginParams { manual: None });
    let url = "https://accounts.spotify.com/authorize?response_type=code&client_id=id&redirect_uri=http%3A%2F%2Fh%2Fcallback&scope=user-read-playback-state+user-read-recently-played&state=st";
    match plain {
        LoginResponse::Redirect(u) => assert_eq!(u, url),
        LoginResponse::Page(_) => panic!("expected a redirect"),
    }
    match manual {
        LoginResponse::Page(p) => {
            assert!(p.contains(&format!("<p><a href=\"{}\">authorize with spotify</a></p>", url)));
            assert!(p.starts_with("<!DOCTYPE html>"));
            assert!(p.ends_with("</body></html>"));
        },
        LoginResponse::Redirect(_) => panic!("expected the page"),
    }
    assert_eq!(redirect_uri("https://x.org"), "https://x.org/callback");
}

#[test]
fn display_name_falls_back_to_id() {
    let p = UserProfile { id: "u1".into(), display_name: None };
    assert_eq!(display_name_of(&p), "u1");
    let p = UserProfile { id: "u1".into(), display_name: Some("Alice".into()) };
    assert_eq!(display_name_of(&p), "Alice");
}

#[test]
fn tasks_for_users() {
    let t = plan_user_tasks(false, true);
    assert!(t.poller && t.refresher && t.reconciler);
    let t = plan_user_tasks(false, false);
    assert!(t.poller && t.refresher && !t.reconciler);
    let t = plan_user_tasks(true, true);
    assert!(!t.poller && !t.refresher && !t.reconciler);
}

#[test]
fn refresh_keeps_old_refresh_token() {
    let t = TokenData {
        access_token: "new".into(),
        token_type: "Bearer".into(),
        expires_in: 3600,
        refresh_token: None,
        scope: None,
        created_at: 5,
    };
    let merged = with_refresh_token(t, "old-refresh".into());
    assert_eq!(merged.refresh_token, Some("old-refresh".to_string()));
    assert_eq!(merged.access_token, "new");
    let t = TokenData { refresh_token: Some("rotated".into()), ..merged };
    assert_eq!(with_refresh_token(t, "old".into()).refresh_token, Some("rotated".to_string()));
}

#[test]
fn csrf_state_is_base64_of_timestamp_bytes() {
    let e = base64::engine::general_purpose::URL_SAFE_NO_PAD;
    for now in [0i64, 1, 1_774_828_800, -1, i64::MIN, i64::MAX, 256] {
        assert_eq!(csrf_state_at(now), e.encode(now.to_le_bytes()));
    }
    assert_eq!(csrf_state_at(1), "AQAAAAAAAAA");
    assert_eq!(csrf_state().len(), 11);
}

#[test]
fn refresher_passes_over_a_token_without_refresh() {
    let t = TokenData {
        access_token: "a".into(),
        token_type: "Bearer".into(),
        expires_in: 3600,
        refresh_token: None,
        scope: None,
        created_at: 5,
    };
    assert_eq!(refresh_request(&t), None);
    let t = TokenData { refresh_token: Some("r1".into()), ..t };
    assert_eq!(refresh_request(&t), Some("r1".to_string()));
}
