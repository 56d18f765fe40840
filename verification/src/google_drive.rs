use oauth2::basic::BasicClient;
use oauth2::{AuthUrl, ClientId, ClientSecret, CsrfToken, RedirectUrl, Scope, TokenUrl};
use vstd::prelude::*;
use vstd::string::StringExecFns;

verus! {

/// Builds an OAuth2 client from `request` with `oauth2::basic::BasicClient`
/// and calls its `authorize_url(CsrfToken::new_random)` with the request's
/// one scope, giving the URL as text; `None` where one of the endpoint URLs
/// does not parse. The URL carries a fresh random state, so nothing is
/// stated of it.
#[verifier::external_body]
fn oauth2_authorize_url(request: &LoginRequest) -> (r: Option<String>) {
    let auth = AuthUrl::new(request.auth_uri.clone()).ok()?;
    let token = TokenUrl::new(request.token_uri.clone()).ok()?;
    let redirect = RedirectUrl::new(request.redirect_uri.clone()).ok()?;
    let client = BasicClient::new(ClientId::new(request.client_id.clone())).set_client_secret(
        ClientSecret::new(request.client_secret.clone()),
    ).set_auth_uri(auth).set_token_uri(token).set_redirect_uri(redirect);
    let (url, _csrf_token) = client.authorize_url(CsrfToken::new_random).add_scope(
        Scope::new(request.scope.clone()),
    ).url();
    Some(url.to_string())
}

/// What a login asks Google for.
pub struct LoginRequest {
    pub client_id: String,
    pub client_secret: String,
    pub auth_uri: String,
    pub token_uri: String,
    pub redirect_uri: String,
    /// The one scope asked for.
    pub scope: String,
}

/// The address Google redirects to after login: `http://<addr>/callback`.
pub fn redirect_url(addr: &str) -> (r: String)
    ensures
        r@ == "http://"@ + addr@ + "/callback"@,
{
    let mut url = String::from_str("http://");
    url.append(addr);
    url.append("/callback");
    url
}

/// The login for a local callback listener at `addr`: the tool's client,
/// Google's authorization and token endpoints, the redirect back to
/// `http://<addr>/callback`, and the one scope that lets the tool manage the
/// files it creates in Drive.
pub fn login_request(addr: &str) -> (r: LoginRequest)
    ensures
        r.client_id@ == "CLIENT_ID"@,
        r.client_secret@ == "CLIENT_SECRET"@,
        r.auth_uri@ == "https://accounts.google.com/o/oauth2/v2/auth"@,
        r.token_uri@ == "https://oauth2.googleapis.com/token"@,
        r.redirect_uri@ == "http://"@ + addr@ + "/callback"@,
        r.scope@ == "https://www.googleapis.com/auth/drive.file"@,
{
    LoginRequest {
        client_id: String::from_str("CLIENT_ID"),
        client_secret: String::from_str("CLIENT_SECRET"),
        auth_uri: String::from_str("https://accounts.google.com/o/oauth2/v2/auth"),
        token_uri: String::from_str("https://oauth2.googleapis.com/token"),
        redirect_uri: redirect_url(addr),
        scope: String::from_str("https://www.googleapis.com/auth/drive.file"),
    }
}

/// The Google login URL for the request [`login_request`] makes for a
/// local callback listener at `addr`; `None` where the redirect address
/// does not make a URL.
pub fn login_url(addr: &str) -> (r: Option<String>) {
    oauth2_authorize_url(&login_request(addr))
}

} // verus!
