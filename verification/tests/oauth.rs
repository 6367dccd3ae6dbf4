use base64::engine::general_purpose::URL_SAFE_NO_PAD;
use base64::Engine;
use local_mcp::clock::Timestamp;
use local_mcp::json::Json;
use local_mcp::oauth::{
    authorization_server, authorize_form, authorize_submit, authorize_submit_with, consent_page,
    escape, protected_resource, redirect_location, register, register_as, secret_matches,
    server_error, token, token_with, Answer, AuthorizeParams, ConsentForm, OAuth, Refusal,
    TokenRequest, Trouble,
};
use local_mcp::pkce::{challenge_of, digest_answers};
use local_mcp::store::{Change, Store};
use sha2::{Digest, Sha256};

const SECRET: &str = "supersecrettoken";
const URI: &str = "https://example.com/cb";
const VERIFIER: &str = "a-verifier-long-enough-to-be-realistic-0123456789";
const NOW: Timestamp = Timestamp { secs: 1_800_000_000, nanos: 500 };

fn later(secs: i64) -> Timestamp {
    Timestamp { secs: NOW.secs + secs, nanos: NOW.nanos }
}

fn server() -> OAuth {
    OAuth::new("https://mcp.example.com".to_string(), SECRET.to_string())
}

fn store() -> Store {
    let mut store = Store::open(vec![], vec![], vec![], vec![]).unwrap();
    store.register_client("client", &vec![URI.to_string()]);
    store
}

fn params(client_id: &str, redirect_uri: &str) -> AuthorizeParams {
    AuthorizeParams {
        client_id: client_id.to_string(),
        redirect_uri: redirect_uri.to_string(),
        state: "st".to_string(),
        code_challenge: "abc".to_string(),
        code_challenge_method: "S256".to_string(),
    }
}

fn consent(token: &str) -> ConsentForm {
    ConsentForm {
        client_id: "client".to_string(),
        redirect_uri: URI.to_string(),
        state: "st".to_string(),
        code_challenge: challenge_of(VERIFIER),
        code_challenge_method: "S256".to_string(),
        token: token.to_string(),
    }
}

fn request(code: &str) -> TokenRequest {
    TokenRequest {
        grant_type: "authorization_code".to_string(),
        code: code.to_string(),
        redirect_uri: URI.to_string(),
        code_verifier: VERIFIER.to_string(),
    }
}

fn agreed() -> Store {
    let mut store = store();
    authorize_submit_with(&server(), &mut store, &consent(SECRET), "code-1", NOW).unwrap();
    store
}

fn field<'a>(j: &'a Json, name: &str) -> &'a Json {
    j.get(name).unwrap_or_else(|| panic!("no field {name}"))
}

fn text_of(j: &Json) -> &str {
    match j {
        Json::Text(t) => t,
        other => panic!("not a text: {other:?}"),
    }
}

fn refused(r: Refusal, status: u16, error: &str, description: &str) {
    assert_eq!((r.status, r.error.as_str(), r.description.as_str()), (status, error, description));
    let body = r.body();
    assert_eq!(text_of(field(&body, "error")), error);
    assert_eq!(text_of(field(&body, "error_description")), description);
}

#[test]
fn pkce_challenge_matches_its_verifier() {
    let verifier = "a-verifier-long-enough-to-be-realistic-0123456789";
    let challenge = URL_SAFE_NO_PAD.encode(Sha256::digest(verifier.as_bytes()));
    assert_eq!(challenge_of(verifier), challenge);
    assert_ne!(challenge_of("a-different-verifier"), challenge);
    let digest = |v: &str| Sha256::digest(v.as_bytes()).to_vec();
    assert!(digest_answers(&digest(verifier), &challenge));
    assert!(!digest_answers(&digest("a-different-verifier"), &challenge));
}

#[test]
fn the_challenge_of_a_known_verifier() {
    assert_eq!(
        challenge_of("dBjftJeZ4CVP-mB92K27uhbUJU1p1r_wW1gFWFOEjXk"),
        "E9Melhoa2OwvFrEMTJguCHaoeK1t8URWbuGJSstw-cM"
    );
}

#[test]
fn consent_page_escapes_injected_markup() {
    let params = AuthorizeParams {
        client_id: "\"><script>alert(1)</script>".to_string(),
        redirect_uri: "https://example.com/cb".to_string(),
        state: String::new(),
        code_challenge: "abc".to_string(),
        code_challenge_method: "S256".to_string(),
    };
    let page = consent_page(&params, None);
    assert!(!page.contains("<script>alert(1)"));
    assert!(page.contains("&lt;script&gt;"));
}

#[test]
fn secret_comparison_rejects_near_misses() {
    assert!(secret_matches("supersecrettoken", "supersecrettoken"));
    assert!(!secret_matches("supersecrettoken", "supersecrettoke"));
    assert!(!secret_matches("supersecrettoken", "Supersecrettoken"));
}

#[test]
fn escape_covers_the_four_characters() {
    assert_eq!(escape("a&b<c>d\"e'f"), "a&amp;b&lt;c&gt;d&quot;e'f");
    assert_eq!(escape("&lt;"), "&amp;lt;");
    assert_eq!(escape(""), "");
}

#[test]
fn the_consent_page_in_full() {
    let page = consent_page(&params("client", URI), Some("No & no"));
    let expected = r#"<!doctype html>
<html lang="en">
<head>
<meta charset="utf-8">
<meta name="viewport" content="width=device-width, initial-scale=1">
<title>Authorize local-mcp</title>
<style>
  :root { color-scheme: light dark; }
  body { font: 16px/1.5 system-ui, sans-serif; display: grid; place-items: center;
         min-height: 100vh; margin: 0; padding: 1rem; }
  form { width: 100%; max-width: 26rem; }
  h1 { font-size: 1.25rem; margin-bottom: .25rem; }
  p { margin: .25rem 0 1rem; opacity: .8; }
  .error { color: #b00020; opacity: 1; }
  input { width: 100%; padding: .6rem; font: inherit; box-sizing: border-box; }
  button { margin-top: 1rem; width: 100%; padding: .6rem; font: inherit; cursor: pointer; }
</style>
</head>
<body>
<form method="post" action="/authorize">
  <h1>Authorize access</h1>
  <p>A client is asking to read and edit files through local-mcp.
     Enter the server token to allow it.</p>
  <p class="error">No &amp; no</p>
  <input type="hidden" name="client_id" value="client">
  <input type="hidden" name="redirect_uri" value="https://example.com/cb">
  <input type="hidden" name="state" value="st">
  <input type="hidden" name="code_challenge" value="abc">
  <input type="hidden" name="code_challenge_method" value="S256">
  <input type="password" name="token" placeholder="Server token" autofocus required>
  <button type="submit">Allow</button>
</form>
</body>
</html>"#;
    assert_eq!(page, expected);
}

#[test]
fn the_metadata_names_the_endpoints() {
    let oauth = server();
    assert_eq!(
        oauth.resource_metadata_url(),
        "https://mcp.example.com/.well-known/oauth-protected-resource"
    );
    let resource = protected_resource(&oauth);
    assert_eq!(text_of(field(&resource, "resource")), "https://mcp.example.com/local");
    assert_eq!(resource.texts("authorization_servers"), vec!["https://mcp.example.com"]);
    assert_eq!(resource.texts("bearer_methods_supported"), vec!["header"]);
    let server = authorization_server(&oauth);
    assert_eq!(text_of(field(&server, "issuer")), "https://mcp.example.com");
    assert_eq!(
        text_of(field(&server, "authorization_endpoint")),
        "https://mcp.example.com/authorize"
    );
    assert_eq!(text_of(field(&server, "token_endpoint")), "https://mcp.example.com/token");
    assert_eq!(
        text_of(field(&server, "registration_endpoint")),
        "https://mcp.example.com/register"
    );
    assert_eq!(server.texts("response_types_supported"), vec!["code"]);
    assert_eq!(server.texts("grant_types_supported"), vec!["authorization_code"]);
    assert_eq!(server.texts("code_challenge_methods_supported"), vec!["S256"]);
    assert_eq!(server.texts("token_endpoint_auth_methods_supported"), vec!["none"]);
    assert_eq!(server.texts("scopes_supported"), vec!["mcp"]);
}

fn registration(uris: Vec<Json>) -> Json {
    Json::Object(vec![
        ("client_name".to_string(), Json::Text("x".to_string())),
        ("redirect_uris".to_string(), Json::Array(uris)),
    ])
}

#[test]
fn a_registration_keeps_the_texts_among_its_addresses() {
    let mut store = store();
    let body = registration(vec![
        Json::Text("https://a".to_string()),
        Json::Number("7".to_string()),
        Json::Null,
        Json::Text("https://b".to_string()),
    ]);
    let reply = register_as(&mut store, &body, "id-1").unwrap();
    assert_eq!(text_of(field(&reply, "client_id")), "id-1");
    assert_eq!(reply.texts("redirect_uris"), vec!["https://a", "https://b"]);
    assert_eq!(text_of(field(&reply, "token_endpoint_auth_method")), "none");
    assert_eq!(reply.texts("grant_types"), vec!["authorization_code"]);
    assert_eq!(reply.texts("response_types"), vec!["code"]);
    let mut uris = store.redirect_uris("id-1").unwrap();
    uris.sort();
    assert_eq!(uris, vec!["https://a".to_string(), "https://b".to_string()]);
}

#[test]
fn a_registration_without_addresses_is_refused() {
    for body in [
        registration(vec![]),
        registration(vec![Json::Bool(true)]),
        Json::Object(vec![]),
        Json::Null,
        Json::Object(vec![("redirect_uris".to_string(), Json::Text("https://a".to_string()))]),
    ] {
        let mut store = store();
        store.take_changes();
        refused(
            register_as(&mut store, &body, "id-1").unwrap_err(),
            400,
            "invalid_redirect_uri",
            "at least one redirect_uri is required",
        );
        assert_eq!(store.take_changes().len(), 0);
    }
}

#[test]
fn a_client_id_is_a_random_uuid() {
    let mut store = store();
    let body = registration(vec![Json::Text("https://a".to_string())]);
    let reply = register(&mut store, &body).unwrap();
    let id = text_of(field(&reply, "client_id")).to_string();
    let parsed = uuid::Uuid::parse_str(&id).unwrap();
    assert_eq!(parsed.get_version_num(), 4);
    assert_eq!(parsed.to_string(), id);
    assert_eq!(store.redirect_uris(&id), Some(vec!["https://a".to_string()]));
    let other = register(&mut store, &body).unwrap();
    assert_ne!(text_of(field(&other, "client_id")), id);
}

#[test]
fn the_form_is_shown_to_a_registered_client_with_a_proof_key() {
    let store = store();
    let shown = authorize_form(&store, &params("client", URI)).unwrap();
    assert_eq!(shown, consent_page(&params("client", URI), None));
    refused(
        authorize_form(&store, &params("nobody", URI)).unwrap_err(),
        400,
        "invalid_client",
        "unknown client_id",
    );
    refused(
        authorize_form(&store, &params("client", "https://evil")).unwrap_err(),
        400,
        "invalid_request",
        "redirect_uri was not registered for this client",
    );
    let mut plain = params("client", URI);
    plain.code_challenge_method = "plain".to_string();
    refused(
        authorize_form(&store, &plain).unwrap_err(),
        400,
        "invalid_request",
        "PKCE with S256 is required",
    );
    let mut empty = params("client", URI);
    empty.code_challenge = String::new();
    refused(
        authorize_form(&store, &empty).unwrap_err(),
        400,
        "invalid_request",
        "PKCE with S256 is required",
    );
}

#[test]
fn the_right_token_sends_the_client_back_with_a_code() {
    let mut store = store();
    match authorize_submit_with(&server(), &mut store, &consent(" supersecrettoken\n"), "c0de", NOW)
        .unwrap()
    {
        Answer::Redirect { status, location, body } => {
            assert_eq!(status, 302);
            assert_eq!(location, "https://example.com/cb?code=c0de&state=st");
            assert_eq!(body, "authorized");
        }
        other => panic!("unexpected {other:?}"),
    }
    let pending = store.take_code("c0de").unwrap();
    assert_eq!(pending.expires_at, Timestamp { secs: NOW.secs + 600, nanos: 0 });
    assert_eq!(pending.code_challenge, challenge_of(VERIFIER));
}

#[test]
fn the_wrong_token_shows_the_page_again() {
    let mut store = store();
    store.take_changes();
    match authorize_submit(&server(), &mut store, &consent("supersecrettokeN"), NOW).unwrap() {
        Answer::Page { status, html } => {
            assert_eq!(status, 401);
            assert!(html.contains("<p class=\"error\">That token is not correct.</p>"));
        }
        other => panic!("unexpected {other:?}"),
    }
    assert_eq!(store.take_changes().len(), 0);
}

#[test]
fn a_stranger_gets_no_code_even_with_the_right_token() {
    let mut store = store();
    let mut form = consent(SECRET);
    form.client_id = "nobody".to_string();
    refused(
        authorize_submit(&server(), &mut store, &form, NOW).unwrap_err(),
        400,
        "invalid_client",
        "unknown client_id",
    );
    let mut form = consent(SECRET);
    form.redirect_uri = "https://evil".to_string();
    refused(
        authorize_submit(&server(), &mut store, &form, NOW).unwrap_err(),
        400,
        "invalid_request",
        "redirect_uri was not registered for this client",
    );
}

#[test]
fn a_code_that_is_taken_cannot_be_recorded() {
    let mut store = agreed();
    refused(
        authorize_submit_with(&server(), &mut store, &consent(SECRET), "code-1", NOW).unwrap_err(),
        500,
        "server_error",
        "cannot record the authorization code",
    );
}

#[test]
fn the_separator_depends_on_the_address() {
    assert_eq!(redirect_location("https://a/cb", "", "c"), "https://a/cb?code=c");
    assert_eq!(redirect_location("https://a/cb?x=1", "", "c"), "https://a/cb?x=1&code=c");
    assert_eq!(
        redirect_location("https://a/cb?x=1", "s t", "c"),
        "https://a/cb?x=1&code=c&state=s t"
    );
}

#[test]
fn the_whole_flow_hands_out_a_token_for_thirty_days() {
    let mut store = agreed();
    let reply = token_with(&mut store, &request("code-1"), "tok", later(599)).unwrap();
    assert_eq!(text_of(field(&reply, "access_token")), "tok");
    assert_eq!(text_of(field(&reply, "token_type")), "Bearer");
    assert!(matches!(field(&reply, "expires_in"), Json::Number(n) if n == "2592000"));
    assert_eq!(text_of(field(&reply, "scope")), "mcp");
    let oauth = server();
    assert!(oauth.token_is_valid(&mut store, "tok", later(599 + 2_592_000 - 1)));
    assert!(!oauth.token_is_valid(&mut store, "other", later(600)));
    assert!(!oauth.token_is_valid(&mut store, "tok", later(599 + 2_592_000)));
}

#[test]
fn a_token_is_thirty_two_random_digits() {
    let mut store = agreed();
    let reply = token(&mut store, &request("code-1"), later(1)).unwrap();
    let value = text_of(field(&reply, "access_token")).to_string();
    assert_eq!(value.len(), 32);
    let parsed = uuid::Uuid::parse_str(&value).unwrap();
    assert_eq!(parsed.get_version_num(), 4);
    assert_eq!(parsed.simple().to_string(), value);
    assert!(server().token_is_valid(&mut store, &value, later(2)));
}

#[test]
fn another_grant_type_is_refused_and_keeps_the_code() {
    let mut store = agreed();
    let mut wrong = request("code-1");
    wrong.grant_type = "client_credentials".to_string();
    refused(
        token(&mut store, &wrong, later(1)).unwrap_err(),
        400,
        "unsupported_grant_type",
        "only authorization_code is supported",
    );
    assert!(token(&mut store, &request("code-1"), later(1)).is_ok());
}

#[test]
fn a_code_works_once() {
    let mut store = agreed();
    assert!(token(&mut store, &request("code-1"), later(1)).is_ok());
    refused(
        token(&mut store, &request("code-1"), later(1)).unwrap_err(),
        400,
        "invalid_grant",
        "unknown or already-used authorization code",
    );
}

#[test]
fn a_code_expires_after_ten_minutes() {
    // Written down as a whole second, so that second's start still counts.
    let at_expiry = Timestamp { secs: NOW.secs + 600, nanos: 0 };
    assert!(token(&mut agreed(), &request("code-1"), at_expiry).is_ok());
    let just_after = Timestamp { secs: NOW.secs + 600, nanos: 1 };
    refused(
        token(&mut agreed(), &request("code-1"), just_after).unwrap_err(),
        400,
        "invalid_grant",
        "authorization code has expired",
    );
}

#[test]
fn a_failed_exchange_spends_the_code() {
    let mut store = agreed();
    let mut wrong = request("code-1");
    wrong.redirect_uri = "https://evil".to_string();
    refused(
        token(&mut store, &wrong, later(1)).unwrap_err(),
        400,
        "invalid_grant",
        "redirect_uri does not match the authorization request",
    );
    refused(
        token(&mut store, &request("code-1"), later(1)).unwrap_err(),
        400,
        "invalid_grant",
        "unknown or already-used authorization code",
    );
}

#[test]
fn the_wrong_verifier_gets_no_token() {
    let mut store = agreed();
    let mut wrong = request("code-1");
    wrong.code_verifier = "a-different-verifier".to_string();
    store.take_changes();
    refused(
        token(&mut store, &wrong, later(1)).unwrap_err(),
        400,
        "invalid_grant",
        "code_verifier does not match code_challenge",
    );
    let changes = store.take_changes();
    assert_eq!(changes.len(), 1);
    assert!(matches!(&changes[0], Change::RemoveCode { code } if code == "code-1"));
}

#[test]
fn a_token_that_is_taken_cannot_be_recorded() {
    let mut store = agreed();
    assert_eq!(store.store_token("tok", later(60)), Ok(()));
    refused(
        token_with(&mut store, &request("code-1"), "tok", later(1)).unwrap_err(),
        500,
        "server_error",
        "cannot record the issued token",
    );
}

#[test]
fn every_trouble_has_its_words() {
    for (trouble, words) in [
        (Trouble::ReadClients, "cannot read the registered clients"),
        (Trouble::RecordClient, "cannot record the registered client"),
        (Trouble::RecordCode, "cannot record the authorization code"),
        (Trouble::ReadCode, "cannot read the authorization code"),
        (Trouble::RecordToken, "cannot record the issued token"),
    ] {
        refused(server_error(trouble), 500, "server_error", words);
    }
}
