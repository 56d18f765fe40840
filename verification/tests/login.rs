use rust_file::google_drive::{login_url, redirect_url};

#[test]
fn redirect_url_names_the_callback() {
    assert_eq!(redirect_url("127.0.0.1:4242"), "http://127.0.0.1:4242/callback");
}

#[test]
fn login_url_points_at_google() {
    let url = login_url("127.0.0.1:4242").unwrap();
    assert!(url.starts_with("https://accounts.google.com/o/oauth2/v2/auth?"));
    assert!(url.contains("redirect_uri=http%3A%2F%2F127.0.0.1%3A4242%2Fcallback"));
    assert!(url.contains("client_id=CLIENT_ID"));
}

#[test]
fn login_url_refuses_a_bad_address() {
    assert_eq!(login_url("not a host:::"), None);
}
