use dnsmasq_agent::api_error::ApiError;
use dnsmasq_agent::config::BasicAuthConfig;
use dnsmasq_agent::guard::{
    basic_credentials, credentials_match, csrf_cookie, ensure_authorized, ensure_csrf,
    generate_csrf_token, get_cookie,
};
use dnsmasq_agent::ui::render_ui_html;

fn admin() -> Option<BasicAuthConfig> {
    Some(BasicAuthConfig { username: "admin".to_string(), password: "pass:word".to_string() })
}

#[test]
fn no_user_configured_lets_everything_through() {
    assert!(ensure_authorized(&None, None).is_ok());
    assert!(ensure_authorized(&None, Some("nonsense")).is_ok());
}

#[test]
fn credentials_are_accepted() {
    assert_eq!(basic_credentials("admin", "password"), "Basic YWRtaW46cGFzc3dvcmQ=");
    let value = basic_credentials("admin", "pass:word");
    assert!(ensure_authorized(&admin(), Some(&value)).is_ok());
}

#[test]
fn other_credentials_are_refused() {
    let wrong = [
        None,
        Some("".to_string()),
        Some("Basic".to_string()),
        Some("Bearer abc".to_string()),
        Some("basic YWRtaW46cGFzczp3b3Jk".to_string()),
        Some("Basic !!!".to_string()),
        Some("Basic YWRtaW4=".to_string()),
        Some("Basic /////w==".to_string()),
        Some(basic_credentials("admin", "pass")),
        Some(basic_credentials("Admin", "pass:word")),
        Some(format!("{} ", basic_credentials("admin", "pass:word"))),
    ];
    for header in wrong {
        let error = ensure_authorized(&admin(), header.as_deref()).unwrap_err();
        assert_eq!(error.status, 401);
        assert_eq!(error.message, "unauthorized");
        assert_eq!(error.www_authenticate(), Some("Basic realm=\"dnsmasq-agent\""));
    }
}

#[test]
fn decoded_credentials() {
    let user = admin().unwrap();
    assert!(credentials_match(&user, Some(b"admin:pass:word".to_vec())));
    assert!(!credentials_match(&user, Some(b"admin".to_vec())));
    assert!(!credentials_match(&user, Some(vec![0xff, 0x3a])));
    assert!(!credentials_match(&user, None));
    let other = BasicAuthConfig { username: "ä".to_string(), password: "€".to_string() };
    assert!(credentials_match(&other, Some("ä:€".as_bytes().to_vec())));
}

#[test]
fn cookies_are_found() {
    assert_eq!(get_cookie(None, "a"), None);
    assert_eq!(get_cookie(Some("a=1; b=2=3"), "b"), Some("2=3".to_string()));
    assert_eq!(get_cookie(Some("a=1;a=2"), "a"), Some("1".to_string()));
    assert_eq!(get_cookie(Some("a=1"), "A"), None);
    assert_eq!(get_cookie(Some("nonsense; a=1"), "a"), None);
    assert_eq!(get_cookie(Some("a=1; nonsense"), "a"), Some("1".to_string()));
    assert_eq!(get_cookie(Some(""), "a"), None);
}

#[test]
fn issued_token_comes_back() {
    let token = generate_csrf_token();
    assert_eq!(token.len(), 32);
    assert!(token.chars().all(|c| c.is_ascii_alphanumeric()));
    let set = csrf_cookie(&token);
    assert_eq!(set, format!("dnsmasq_csrf={}; Path=/dnsmasq; HttpOnly; SameSite=Strict", token));
    let sent = set.split(';').next().unwrap();
    assert!(ensure_csrf(Some(sent), Some(&token)).is_ok());
}

#[test]
fn wrong_token_is_refused() {
    for token in [None, Some("x"), Some("")] {
        let error = ensure_csrf(Some("dnsmasq_csrf=abc"), token).unwrap_err();
        assert_eq!(error.status, 403);
        assert_eq!(error.message, "csrf validation failed");
        assert_eq!(error.www_authenticate(), None);
    }
}

#[test]
fn requests_without_the_cookie_pass() {
    assert!(ensure_csrf(None, None).is_ok());
    assert!(ensure_csrf(Some("other=1"), Some("x")).is_ok());
}

#[test]
fn answers() {
    let bad = ApiError::bad_request("no");
    assert_eq!((bad.status, bad.message.as_str()), (400, "no"));
    let internal = ApiError::internal("oh");
    assert_eq!((internal.status, internal.message.as_str()), (500, "oh"));
}

#[test]
fn page_holds_the_token() {
    let page = render_ui_html("abc123");
    assert!(page.starts_with("<!doctype html>"));
    assert!(page.ends_with("</html>"));
    assert!(page.contains("const csrfToken = \"abc123\";"));
    assert!(page.contains("replace_mode"));
    for mode in ["both", "host", "ip", "none"] {
        assert!(page.contains(&format!("value=\"{}\"", mode)));
    }
    assert!(render_ui_html("a\"b").contains("const csrfToken = \"a\\\"b\";"));
}
