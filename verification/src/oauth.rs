//! A minimal authorization server, beside the resource that it protects.
//!
//! Some clients only talk to a server that offers OAuth. Nothing here federates
//! identity: the consent page asks for the server's own token, so the shared
//! secret still decides who gets in.
//!
//! Each handler stands here twice: in steps, between which the rows are read or
//! written, and as a whole on a [`Store`].
use vstd::prelude::*;
use vstd::utf8::encode_utf8;

use crate::clock::{epoch, Timestamp};
use crate::ids::{hyphenated, hyphenated_text, is_random_id, new_id, simple, simple_text};
use crate::json::{text_array, texts_under, Data, Fields, Json};
use crate::pkce::{base64url, digest_answers, sha256, sha256_digest};
use crate::secret::same_secret;
use crate::store::{Granted, Pending, PendingCode, Store, Tables};
use crate::text::{decimal, decimal_text, join2, same_text, trim, trimmed, views};

verus! {

/// How long an authorization code lasts, in seconds: enough for a consent page.
pub const CODE_TTL: u64 = 600;

/// How long an access token lasts, in seconds.
pub const TOKEN_TTL: u64 = 2_592_000;

/// The answer to a request that is refused.
#[derive(Debug)]
pub struct Refusal {
    pub status: u16,
    pub error: String,
    pub description: String,
}

/// What a [`Refusal`] says.
pub struct Denied {
    pub status: u16,
    pub error: Seq<char>,
    pub description: Seq<char>,
}

impl View for Refusal {
    type V = Denied;

    open spec fn view(&self) -> Denied {
        Denied { status: self.status, error: self.error@, description: self.description@ }
    }
}

/// A refusal with a status, a code and a description.
pub fn oauth_error(status: u16, code: &str, description: &str) -> (r: Refusal)
    ensures
        r@ == (Denied { status, error: code@, description: description@ }),
{
    Refusal { status, error: code.to_owned(), description: description.to_owned() }
}

impl Denied {
    /// The body of the answer.
    pub open spec fn body(self) -> Data {
        Data::Object(
            seq![
                ("error"@, Data::Text(self.error)),
                ("error_description"@, Data::Text(self.description)),
            ],
        )
    }
}

impl Refusal {
    /// The body of the answer.
    pub fn body(&self) -> (j: Json)
        ensures
            j@ == self@.body(),
            j@ == Data::Object(
                seq![
                    ("error"@, Data::Text(self.error@)),
                    ("error_description"@, Data::Text(self.description@)),
                ],
            ),
    {
        let f = Fields::new();
        let f = f.with("error", Json::text(self.error.as_str()));
        let f = f.with("error_description", Json::text(self.description.as_str()));
        assert(f@ =~= self@.body()->Object_0);
        f.done()
    }
}

/// What could not be done with the rows.
#[derive(Clone, Copy, Debug, PartialEq, Eq, Structural)]
pub enum Trouble {
    ReadClients,
    RecordClient,
    RecordCode,
    ReadCode,
    RecordToken,
}

/// How the answer describes it.
pub open spec fn trouble_text(t: Trouble) -> Seq<char> {
    match t {
        Trouble::ReadClients => "cannot read the registered clients"@,
        Trouble::RecordClient => "cannot record the registered client"@,
        Trouble::RecordCode => "cannot record the authorization code"@,
        Trouble::ReadCode => "cannot read the authorization code"@,
        Trouble::RecordToken => "cannot record the issued token"@,
    }
}

/// The answer where the rows could not be read or written.
pub open spec fn failed(t: Trouble) -> Denied {
    Denied { status: 500, error: "server_error"@, description: trouble_text(t) }
}

/// The answer where the rows could not be read or written.
pub fn server_error(t: Trouble) -> (r: Refusal)
    ensures
        r@ == failed(t),
{
    let description = match t {
        Trouble::ReadClients => "cannot read the registered clients",
        Trouble::RecordClient => "cannot record the registered client",
        Trouble::RecordCode => "cannot record the authorization code",
        Trouble::ReadCode => "cannot read the authorization code",
        Trouble::RecordToken => "cannot record the issued token",
    };
    oauth_error(500, "server_error", description)
}

/// The authorization server: the origin that clients reach it under, and the
/// secret that the consent page asks for.
#[derive(Debug)]
pub struct OAuth {
    pub issuer: String,
    pub consent_secret: String,
}

impl OAuth {
    /// A server for an origin and a secret.
    pub fn new(issuer: String, consent_secret: String) -> (o: OAuth)
        ensures
            o.issuer@ == issuer@,
            o.consent_secret@ == consent_secret@,
    {
        OAuth { issuer, consent_secret }
    }

    /// Where a client finds the description of this flow. It is named in every
    /// answer that lacks a token, so that a client can discover it.
    pub fn resource_metadata_url(&self) -> (url: String)
        ensures
            url@ == self.issuer@ + "/.well-known/oauth-protected-resource"@,
    {
        join2(self.issuer.as_str(), "/.well-known/oauth-protected-resource")
    }

    /// Whether an access token was issued and has not expired.
    pub fn token_is_valid(&self, store: &mut Store, presented: &str, now: Timestamp) -> (valid: bool)
        requires
            old(store).wf(),
        ensures
            final(store).wf(),
            final(store).loaded() == old(store).loaded(),
            final(store)@ == old(store)@.unexpired(epoch(now)),
            valid == old(store)@.token_valid(presented@, epoch(now)),
    {
        store.token_is_valid(presented, now)
    }
}

/// Whether a presented secret is the expected one.
pub fn secret_matches(expected: &str, presented: &str) -> (same: bool)
    ensures
        same == (expected@ == presented@),
{
    same_secret(expected, presented)
}

/// The description of the protected resource (RFC 9728). It names the
/// authorization server, which is this one.
pub open spec fn resource_description(issuer: Seq<char>) -> Data {
    Data::Object(
        seq![
            ("resource"@, Data::Text(issuer + "/local"@)),
            ("authorization_servers"@, text_array(seq![issuer])),
            ("bearer_methods_supported"@, text_array(seq!["header"@])),
        ],
    )
}

/// Describes the protected resource.
pub fn protected_resource(oauth: &OAuth) -> (j: Json)
    ensures
        j@ == resource_description(oauth.issuer@),
        j@ matches Data::Object(f) && f[0] == ("resource"@, Data::Text(oauth.issuer@ + "/local"@))
            && f[1].0 == "authorization_servers"@ && (f[1].1 matches Data::Array(v) && v.len() == 1
            && v[0] == Data::Text(oauth.issuer@)),
{
    let issuer = oauth.issuer.as_str();
    let resource = join2(issuer, "/local");
    let f = Fields::new();
    let f = f.with("resource", Json::text(resource.as_str()));
    let f = f.with("authorization_servers", Json::one_text(issuer));
    let f = f.with("bearer_methods_supported", Json::one_text("header"));
    assert(f@ =~= resource_description(oauth.issuer@)->Object_0);
    f.done()
}

/// The description of the authorization server (RFC 8414).
pub open spec fn server_description(issuer: Seq<char>) -> Data {
    Data::Object(
        seq![
            ("issuer"@, Data::Text(issuer)),
            ("authorization_endpoint"@, Data::Text(issuer + "/authorize"@)),
            ("token_endpoint"@, Data::Text(issuer + "/token"@)),
            ("registration_endpoint"@, Data::Text(issuer + "/register"@)),
            ("response_types_supported"@, text_array(seq!["code"@])),
            ("grant_types_supported"@, text_array(seq!["authorization_code"@])),
            ("code_challenge_methods_supported"@, text_array(seq!["S256"@])),
            ("token_endpoint_auth_methods_supported"@, text_array(seq!["none"@])),
            ("scopes_supported"@, text_array(seq!["mcp"@])),
        ],
    )
}

/// Describes the authorization server.
pub fn authorization_server(oauth: &OAuth) -> (j: Json)
    ensures
        j@ == server_description(oauth.issuer@),
        j@ matches Data::Object(f) && f[0] == ("issuer"@, Data::Text(oauth.issuer@)) && f[1] == (
            "authorization_endpoint"@,
            Data::Text(oauth.issuer@ + "/authorize"@),
        ) && f[2] == ("token_endpoint"@, Data::Text(oauth.issuer@ + "/token"@)) && f[3] == (
            "registration_endpoint"@,
            Data::Text(oauth.issuer@ + "/register"@),
        ),
{
    let issuer = oauth.issuer.as_str();
    let authorize = join2(issuer, "/authorize");
    let token = join2(issuer, "/token");
    let register = join2(issuer, "/register");
    let f = Fields::new();
    let f = f.with("issuer", Json::text(issuer));
    let f = f.with("authorization_endpoint", Json::text(authorize.as_str()));
    let f = f.with("token_endpoint", Json::text(token.as_str()));
    let f = f.with("registration_endpoint", Json::text(register.as_str()));
    let f = f.with("response_types_supported", Json::one_text("code"));
    let f = f.with("grant_types_supported", Json::one_text("authorization_code"));
    let f = f.with("code_challenge_methods_supported", Json::one_text("S256"));
    let f = f.with("token_endpoint_auth_methods_supported", Json::one_text("none"));
    let f = f.with("scopes_supported", Json::one_text("mcp"));
    assert(f@ =~= server_description(oauth.issuer@)->Object_0);
    f.done()
}

/// The answer to a registration without a redirect address.
pub open spec fn no_redirect_uri() -> Denied {
    Denied {
        status: 400,
        error: "invalid_redirect_uri"@,
        description: "at least one redirect_uri is required"@,
    }
}

/// The redirect addresses that a registration asks for: the texts in the array
/// under `redirect_uris`.
pub open spec fn asked_uris(body: Data) -> Seq<Seq<char>> {
    texts_under(body, "redirect_uris"@)
}

/// Reads the redirect addresses that a registration asks for.
pub fn requested_uris(body: &Json) -> (out: Result<Vec<String>, Refusal>)
    ensures
        match out {
            Ok(uris) => asked_uris(body@).len() > 0 && views(uris@) == asked_uris(body@),
            Err(r) => asked_uris(body@).len() == 0 && r@ == no_redirect_uri(),
        },
{
    let uris = body.texts("redirect_uris");
    assert(views(uris@).len() == uris@.len());
    if uris.len() == 0 {
        return Err(
            oauth_error(400, "invalid_redirect_uri", "at least one redirect_uri is required"),
        );
    }
    Ok(uris)
}

/// The answer to a registration.
pub open spec fn registration(client_id: Seq<char>, uris: Seq<Seq<char>>) -> Data {
    Data::Object(
        seq![
            ("client_id"@, Data::Text(client_id)),
            ("redirect_uris"@, text_array(uris)),
            ("token_endpoint_auth_method"@, Data::Text("none"@)),
            ("grant_types"@, text_array(seq!["authorization_code"@])),
            ("response_types"@, text_array(seq!["code"@])),
        ],
    )
}

/// Answers a registration.
pub fn registration_reply(client_id: &str, uris: &Vec<String>) -> (j: Json)
    ensures
        j@ == registration(client_id@, views(uris@)),
{
    let f = Fields::new();
    let f = f.with("client_id", Json::text(client_id));
    let f = f.with("redirect_uris", Json::text_list(uris));
    let f = f.with("token_endpoint_auth_method", Json::text("none"));
    let f = f.with("grant_types", Json::one_text("authorization_code"));
    let f = f.with("response_types", Json::one_text("code"));
    assert(f@ =~= registration(client_id@, views(uris@))->Object_0);
    f.done()
}

/// The rows and the answer after a registration under a client id.
pub open spec fn registering(t: Tables, body: Data, client_id: Seq<char>) -> (
    Tables,
    Result<Data, Denied>,
) {
    let uris = asked_uris(body);
    if uris.len() == 0 {
        (t, Err(no_redirect_uri()))
    } else {
        (t.registered(client_id, uris), Ok(registration(client_id, uris)))
    }
}

/// What a JSON answer came to.
pub open spec fn replied(out: Result<Json, Refusal>) -> Result<Data, Denied> {
    match out {
        Ok(j) => Ok(j@),
        Err(r) => Err(r@),
    }
}

/// An id for a client or a code, chosen at random.
pub fn fresh_id() -> (id: String)
    ensures
        exists|n: u128| is_random_id(n) && id@ == #[trigger] hyphenated(n),
{
    let n: u128 = new_id();
    hyphenated_text(n)
}

/// An access token, chosen at random.
pub fn fresh_token() -> (token: String)
    ensures
        exists|n: u128| is_random_id(n) && token@ == #[trigger] simple(n),
{
    let n: u128 = new_id();
    simple_text(n)
}

/// Registers a client (RFC 7591) under the given id. Anyone may register: it is
/// the consent page that decides whether a token is issued.
pub fn register_as(store: &mut Store, body: &Json, client_id: &str) -> (out: Result<Json, Refusal>)
    requires
        old(store).wf(),
    ensures
        final(store).wf(),
        final(store).loaded() == old(store).loaded(),
        (final(store)@, replied(out)) == registering(old(store)@, body@, client_id@),
{
    match requested_uris(body) {
        Err(r) => Err(r),
        Ok(uris) => {
            store.register_client(client_id, &uris);
            Ok(registration_reply(client_id, &uris))
        },
    }
}

/// Registers a client under an id chosen at random.
pub fn register(store: &mut Store, body: &Json) -> (out: Result<Json, Refusal>)
    requires
        old(store).wf(),
    ensures
        final(store).wf(),
        final(store).loaded() == old(store).loaded(),
        exists|n: u128|
            is_random_id(n) && (final(store)@, replied(out)) == registering(
                old(store)@,
                body@,
                #[trigger] hyphenated(n),
            ),
{
    let client_id = fresh_id();
    register_as(store, body, client_id.as_str())
}

/// Why a client may not use a redirect address, where it may not.
pub open spec fn client_denied(t: Tables, client_id: Seq<char>, redirect_uri: Seq<char>) -> Option<
    Denied,
> {
    if !t.knows(client_id) {
        Some(Denied { status: 400, error: "invalid_client"@, description: "unknown client_id"@ })
    } else if !t.clients.contains((client_id, redirect_uri)) {
        Some(
            Denied {
                status: 400,
                error: "invalid_request"@,
                description: "redirect_uri was not registered for this client"@,
            },
        )
    } else {
        None
    }
}

/// Requires that a client registered a redirect address: an address that nobody
/// registered is how a stolen code would be delivered elsewhere.
pub fn validate_client(store: &Store, client_id: &str, redirect_uri: &str) -> (out: Result<
    (),
    Refusal,
>)
    requires
        store.wf(),
    ensures
        match (client_denied(store@, client_id@, redirect_uri@), out) {
            (None, Ok(_)) => true,
            (Some(d), Err(r)) => r@ == d,
            _ => false,
        },
        out is Ok <==> store@.clients.contains((client_id@, redirect_uri@)),
{
    proof {
        law_client_denied(store@, client_id@, redirect_uri@);
    }
    match store.redirect_uris(client_id) {
        None => Err(oauth_error(400, "invalid_client", "unknown client_id")),
        Some(uris) => {
            let ghost known = views(uris@);
            let mut i: usize = 0;
            while i < uris.len()
                invariant
                    0 <= i <= uris@.len(),
                    known == views(uris@),
                    known.to_set() == store@.uris(client_id@),
                    store@.knows(client_id@),
                    forall|k: int| 0 <= k < i ==> known[k] != redirect_uri@,
                decreases uris@.len() - i,
            {
                assert(known[i as int] == uris@[i as int]@);
                if same_text(uris[i].as_str(), redirect_uri) {
                    assert(known.to_set().contains(known[i as int]));
                    assert(store@.uris(client_id@).contains(redirect_uri@));
                    return Ok(());
                }
                i = i + 1;
            }
            proof {
                if store@.clients.contains((client_id@, redirect_uri@)) {
                    assert(store@.uris(client_id@).contains(redirect_uri@));
                    assert(known.to_set().contains(redirect_uri@));
                }
            }
            Err(
                oauth_error(
                    400,
                    "invalid_request",
                    "redirect_uri was not registered for this client",
                ),
            )
        },
    }
}

/// A request for the consent page.
#[derive(Debug)]
pub struct AuthorizeParams {
    pub client_id: String,
    pub redirect_uri: String,
    pub state: String,
    pub code_challenge: String,
    pub code_challenge_method: String,
}

/// What a consent page is asked for.
pub struct Asked {
    pub client_id: Seq<char>,
    pub redirect_uri: Seq<char>,
    pub state: Seq<char>,
    pub code_challenge: Seq<char>,
    pub code_challenge_method: Seq<char>,
}

impl View for AuthorizeParams {
    type V = Asked;

    open spec fn view(&self) -> Asked {
        Asked {
            client_id: self.client_id@,
            redirect_uri: self.redirect_uri@,
            state: self.state@,
            code_challenge: self.code_challenge@,
            code_challenge_method: self.code_challenge_method@,
        }
    }
}

/// A character as markup that shows it.
pub open spec fn escaped_char(c: char) -> Seq<char> {
    if c == '&' {
        "&amp;"@
    } else if c == '<' {
        "&lt;"@
    } else if c == '>' {
        "&gt;"@
    } else if c == '"' {
        "&quot;"@
    } else {
        seq![c]
    }
}

/// A text as markup that shows it.
pub open spec fn escaped(s: Seq<char>) -> Seq<char>
    decreases s.len(),
{
    if s.len() == 0 {
        seq![]
    } else {
        escaped(s.drop_last()) + escaped_char(s.last())
    }
}

/// Turns a text into markup that shows it, also inside a quoted attribute.
pub fn escape(value: &str) -> (out: String)
    ensures
        out@ == escaped(value@),
{
    let mut out = String::new();
    for c in it: value.chars()
        invariant
            it.seq() == value@,
            out@ == escaped(value@.take(it.index() as int)),
    {
        let ghost n = it.index() as int;
        proof {
            assert(value@.take(n + 1).drop_last() =~= value@.take(n));
            assert(value@.take(n + 1).last() == c);
        }
        if c == '&' {
            out.append("&amp;");
        } else if c == '<' {
            out.append("&lt;");
        } else if c == '>' {
            out.append("&gt;");
        } else if c == '"' {
            out.append("&quot;");
        } else {
            out.push(c);
            assert(out@ =~= escaped(value@.take(n)) + seq![c]);
        }
    }
    assert(value@.take(value@.len() as int) =~= value@);
    out
}

/// The consent page up to the message that it may carry.
pub const PAGE_HEAD: &'static str = "<!doctype html>
<html lang=\"en\">
<head>
<meta charset=\"utf-8\">
<meta name=\"viewport\" content=\"width=device-width, initial-scale=1\">
<title>Authorize local-mcp</title>
<style>
  :root { color-scheme: light dark; }
  body { font: 16px/1.5 system-ui, sans-serif; display: grid; place-items: center;
         min-height: 100vh; margin: 0; padding: 1rem; }
  form { width: 100%; max-width: 26rem; }
  h1 { font-size: 1.25rem; margin-bottom: .25rem; }
  p { margin: .25rem 0 1rem; opacity: .8; }
  .error { color: #b00020; opacity: 1; }
  input { width: 100%; padding: .6rem; font: inherit; box-sizing: border-box; }
  button { margin-top: 1rem; width: 100%; padding: .6rem; font: inherit; cursor: pointer; }
</style>
</head>
<body>
<form method=\"post\" action=\"/authorize\">
  <h1>Authorize access</h1>
  <p>A client is asking to read and edit files through local-mcp.
     Enter the server token to allow it.</p>
  ";

/// The consent page from the last hidden field on.
pub const PAGE_TAIL: &'static str = "\">
  <input type=\"hidden\" name=\"code_challenge_method\" value=\"S256\">
  <input type=\"password\" name=\"token\" placeholder=\"Server token\" autofocus required>
  <button type=\"submit\">Allow</button>
</form>
</body>
</html>";

/// The message on a consent page.
pub open spec fn page_message(error: Option<Seq<char>>) -> Seq<char> {
    match error {
        Some(e) => "<p class=\"error\">"@ + escaped(e) + "</p>"@,
        None => seq![],
    }
}

/// The consent page: a form that asks for the token, and carries the request
/// along in hidden fields.
pub open spec fn page(asked: Asked, error: Option<Seq<char>>) -> Seq<char> {
    PAGE_HEAD@ + page_message(error) + "\n  <input type=\"hidden\" name=\"client_id\" value=\""@
        + escaped(asked.client_id) + "\">\n  <input type=\"hidden\" name=\"redirect_uri\" value=\""@
        + escaped(asked.redirect_uri) + "\">\n  <input type=\"hidden\" name=\"state\" value=\""@
        + escaped(asked.state) + "\">\n  <input type=\"hidden\" name=\"code_challenge\" value=\""@
        + escaped(asked.code_challenge) + PAGE_TAIL@
}

/// Writes the consent page.
pub fn consent_page(params: &AuthorizeParams, error: Option<&str>) -> (out: String)
    ensures
        out@ == page(
            params@,
            (match error {
                Some(e) => Some(e@),
                None => None,
            }),
        ),
{
    let message = match error {
        Some(e) => {
            let mut m = join2("<p class=\"error\">", escape(e).as_str());
            m.append("</p>");
            m
        },
        None => String::new(),
    };
    let mut out = join2(PAGE_HEAD, message.as_str());
    out.append("\n  <input type=\"hidden\" name=\"client_id\" value=\"");
    out.append(escape(params.client_id.as_str()).as_str());
    out.append("\">\n  <input type=\"hidden\" name=\"redirect_uri\" value=\"");
    out.append(escape(params.redirect_uri.as_str()).as_str());
    out.append("\">\n  <input type=\"hidden\" name=\"state\" value=\"");
    out.append(escape(params.state.as_str()).as_str());
    out.append("\">\n  <input type=\"hidden\" name=\"code_challenge\" value=\"");
    out.append(escape(params.code_challenge.as_str()).as_str());
    out.append(PAGE_TAIL);
    assert(message@ =~= page_message(
        match error {
            Some(e) => Some(e@),
            None => None,
        },
    ));
    out
}

/// What a page came to.
pub open spec fn shown_page(out: Result<String, Refusal>) -> Result<Seq<char>, Denied> {
    match out {
        Ok(html) => Ok(html@),
        Err(r) => Err(r@),
    }
}

/// The answer to a request without a usable proof key.
pub open spec fn no_pkce() -> Denied {
    Denied { status: 400, error: "invalid_request"@, description: "PKCE with S256 is required"@ }
}

/// The answer to a request for the consent page.
pub open spec fn form(t: Tables, asked: Asked) -> Result<Seq<char>, Denied> {
    match client_denied(t, asked.client_id, asked.redirect_uri) {
        Some(d) => Err(d),
        None => if asked.code_challenge_method != "S256"@ || asked.code_challenge.len() == 0 {
            Err(no_pkce())
        } else {
            Ok(page(asked, None))
        },
    }
}

/// Shows the consent page to a registered client that brings a proof key.
pub fn authorize_form(store: &Store, params: &AuthorizeParams) -> (out: Result<String, Refusal>)
    requires
        store.wf(),
    ensures
        shown_page(out) == form(store@, params@),
{
    match validate_client(store, params.client_id.as_str(), params.redirect_uri.as_str()) {
        Err(r) => {
            return Err(r);
        },
        Ok(_) => {},
    }
    if !same_text(params.code_challenge_method.as_str(), "S256")
        || params.code_challenge.as_str().is_empty() {
        return Err(oauth_error(400, "invalid_request", "PKCE with S256 is required"));
    }
    Ok(consent_page(params, None))
}

/// A consent page that was filled in and sent.
#[derive(Debug)]
pub struct ConsentForm {
    pub client_id: String,
    pub redirect_uri: String,
    pub state: String,
    pub code_challenge: String,
    pub code_challenge_method: String,
    pub token: String,
}

impl ConsentForm {
    /// The request that the page was shown for.
    pub open spec fn asked(&self) -> Asked {
        Asked {
            client_id: self.client_id@,
            redirect_uri: self.redirect_uri@,
            state: self.state@,
            code_challenge: self.code_challenge@,
            code_challenge_method: self.code_challenge_method@,
        }
    }
}

/// An answer to a consent page that was sent.
#[derive(Debug)]
pub enum Answer {
    /// A page to show.
    Page { status: u16, html: String },
    /// An address to go to.
    Redirect { status: u16, location: String, body: String },
}

/// What an [`Answer`] holds.
pub enum Answered {
    Page { status: u16, html: Seq<char> },
    Redirect { status: u16, location: Seq<char>, body: Seq<char> },
}

impl View for Answer {
    type V = Answered;

    open spec fn view(&self) -> Answered {
        match self {
            Answer::Page { status, html } => Answered::Page { status: *status, html: html@ },
            Answer::Redirect { status, location, body } => Answered::Redirect {
                status: *status,
                location: location@,
                body: body@,
            },
        }
    }
}

/// The redirect address with the code, and the client's state where it gave one.
pub open spec fn location(redirect_uri: Seq<char>, state: Seq<char>, code: Seq<char>) -> Seq<char> {
    let separator = if redirect_uri.contains('?') {
        '&'
    } else {
        '?'
    };
    let with_code = redirect_uri.push(separator) + "code="@ + code;
    if state.len() == 0 {
        with_code
    } else {
        with_code + "&state="@ + state
    }
}

/// Writes the address that a client is sent to with its code.
pub fn redirect_location(redirect_uri: &str, state: &str, code: &str) -> (out: String)
    ensures
        out@ == location(redirect_uri@, state@, code@),
{
    let mut asks = false;
    for c in it: redirect_uri.chars()
        invariant
            it.seq() == redirect_uri@,
            asks == redirect_uri@.take(it.index() as int).contains('?'),
    {
        let ghost n = it.index() as int;
        proof {
            let before = redirect_uri@.take(n);
            let after = redirect_uri@.take(n + 1);
            assert(after[n] == c);
            if before.contains('?') {
                let k = choose|k: int| 0 <= k < before.len() && before[k] == '?';
                assert(after[k] == '?');
            }
            if after.contains('?') && c != '?' {
                let k = choose|k: int| 0 <= k < after.len() && after[k] == '?';
                assert(before[k] == '?');
            }
        }
        if c == '?' {
            asks = true;
        }
    }
    assert(redirect_uri@.take(redirect_uri@.len() as int) =~= redirect_uri@);
    let mut out = redirect_uri.to_owned();
    out.push(
        if asks {
            '&'
        } else {
            '?'
        },
    );
    out.append("code=");
    out.append(code);
    if !state.is_empty() {
        out.append("&state=");
        out.append(state);
    }
    out
}

/// The moment some seconds later.
pub open spec fn later(now: Timestamp, secs: u64) -> Timestamp {
    Timestamp { secs: (now.secs + secs) as i64, nanos: now.nanos }
}

/// What a consent page that was sent comes to, for a client that may use its
/// redirect address.
#[derive(Debug)]
pub enum Consent {
    /// The token was wrong: the page is shown again.
    Refused(Answer),
    /// The token was right. Once the code is written down, the client is sent
    /// back with it.
    Granted { pending: PendingCode, answer: Answer },
}

/// Whether the token on a consent page is the secret, and what follows.
pub fn weigh_consent(oauth: &OAuth, form: &ConsentForm, code: &str, now: Timestamp) -> (out: Consent)
    requires
        now.secs + CODE_TTL <= i64::MAX,
    ensures
        match out {
            Consent::Refused(answer) => trimmed(form.token@) != oauth.consent_secret@ && answer@
                == refused_page(form.asked()),
            Consent::Granted { pending, answer } => trimmed(form.token@) == oauth.consent_secret@
                && pending@ == issued_code(form.asked(), now) && answer@ == sent_back(
                form.asked(),
                code@,
            ),
        },
{
    let presented = trim(form.token.as_str());
    if !secret_matches(oauth.consent_secret.as_str(), presented.as_str()) {
        let params = AuthorizeParams {
            client_id: form.client_id.as_str().to_owned(),
            redirect_uri: form.redirect_uri.as_str().to_owned(),
            state: form.state.as_str().to_owned(),
            code_challenge: form.code_challenge.as_str().to_owned(),
            code_challenge_method: form.code_challenge_method.as_str().to_owned(),
        };
        let html = consent_page(&params, Some("That token is not correct."));
        return Consent::Refused(Answer::Page { status: 401, html });
    }
    let pending = PendingCode {
        client_id: form.client_id.as_str().to_owned(),
        redirect_uri: form.redirect_uri.as_str().to_owned(),
        code_challenge: form.code_challenge.as_str().to_owned(),
        expires_at: now.plus_secs(CODE_TTL),
    };
    let location = redirect_location(form.redirect_uri.as_str(), form.state.as_str(), code);
    let answer = Answer::Redirect { status: 302, location, body: "authorized".to_owned() };
    Consent::Granted { pending, answer }
}

/// The page shown again, with a status that says why.
pub open spec fn refused_page(asked: Asked) -> Answered {
    Answered::Page { status: 401, html: page(asked, Some("That token is not correct."@)) }
}

/// The way back to the client, with a code.
pub open spec fn sent_back(asked: Asked, code: Seq<char>) -> Answered {
    Answered::Redirect {
        status: 302,
        location: location(asked.redirect_uri, asked.state, code),
        body: "authorized"@,
    }
}

/// What a code that is issued now stands for.
pub open spec fn issued_code(asked: Asked, now: Timestamp) -> Pending {
    Pending {
        client_id: asked.client_id,
        redirect_uri: asked.redirect_uri,
        code_challenge: asked.code_challenge,
        expires_at: later(now, CODE_TTL),
    }
}

/// The rows and the answer after a consent page is sent: the right token gets a
/// code, for a registered client alone.
pub open spec fn submitted(
    t: Tables,
    secret: Seq<char>,
    asked: Asked,
    presented: Seq<char>,
    code: Seq<char>,
    now: Timestamp,
) -> (Tables, Result<Answered, Denied>) {
    match client_denied(t, asked.client_id, asked.redirect_uri) {
        Some(d) => (t, Err(d)),
        None => if trimmed(presented) != secret {
            (t, Ok(refused_page(asked)))
        } else if t.codes.contains_key(code) {
            (t, Err(failed(Trouble::RecordCode)))
        } else {
            (
                t.with_code(
                    code,
                    epoch(later(now, CODE_TTL)),
                    Granted {
                        client_id: asked.client_id,
                        redirect_uri: asked.redirect_uri,
                        code_challenge: asked.code_challenge,
                    },
                ),
                Ok(sent_back(asked, code)),
            )
        },
    }
}

/// What an answer came to.
pub open spec fn answered(out: Result<Answer, Refusal>) -> Result<Answered, Denied> {
    match out {
        Ok(a) => Ok(a@),
        Err(r) => Err(r@),
    }
}

/// Takes a consent page that was sent, and issues the given code where the token
/// on it is right.
pub fn authorize_submit_with(
    oauth: &OAuth,
    store: &mut Store,
    form: &ConsentForm,
    code: &str,
    now: Timestamp,
) -> (out: Result<Answer, Refusal>)
    requires
        old(store).wf(),
        now.secs + CODE_TTL <= i64::MAX,
    ensures
        final(store).wf(),
        final(store).loaded() == old(store).loaded(),
        (final(store)@, answered(out)) == submitted(
            old(store)@,
            oauth.consent_secret@,
            form.asked(),
            form.token@,
            code@,
            now,
        ),
        ({
            let t = old(store)@;
            let after = final(store)@;
            let registered = t.clients.contains((form.client_id@, form.redirect_uri@));
            let agreed = registered && trimmed(form.token@) == oauth.consent_secret@;
            &&& out matches Ok(Answer::Redirect { location: to, .. }) ==> agreed && to@ == location(
                form.redirect_uri@,
                form.state@,
                code@,
            )
            &&& agreed && !t.codes.contains_key(code@) ==> (out matches Ok(
                Answer::Redirect { .. },
            ))
            &&& agreed && !t.codes.contains_key(code@) ==> after.pending(code@) == Some(
                (Pending {
                    client_id: form.client_id@,
                    redirect_uri: form.redirect_uri@,
                    code_challenge: form.code_challenge@,
                    expires_at: (Timestamp {
                        secs: (if now.secs + 600 < 0 {
                            0
                        } else {
                            (now.secs + 600) as i64
                        }),
                        nanos: 0,
                    }),
                }),
            )
            &&& !agreed ==> after == t
        }),
{
    proof {
        law_consent_outcome(
            store@,
            oauth.consent_secret@,
            form.asked(),
            form.token@,
            code@,
            now,
        );
    }
    match validate_client(store, form.client_id.as_str(), form.redirect_uri.as_str()) {
        Err(r) => {
            return Err(r);
        },
        Ok(_) => {},
    }
    match weigh_consent(oauth, form, code, now) {
        Consent::Refused(answer) => Ok(answer),
        Consent::Granted { pending, answer } => {
            match store.store_code(code, &pending) {
                Err(_) => Err(server_error(Trouble::RecordCode)),
                Ok(_) => Ok(answer),
            }
        },
    }
}

/// Takes a consent page that was sent, and issues a code chosen at random where
/// the token on it is right.
pub fn authorize_submit(
    oauth: &OAuth,
    store: &mut Store,
    form: &ConsentForm,
    now: Timestamp,
) -> (out: Result<Answer, Refusal>)
    requires
        old(store).wf(),
        now.secs + CODE_TTL <= i64::MAX,
    ensures
        final(store).wf(),
        final(store).loaded() == old(store).loaded(),
        exists|n: u128|
            is_random_id(n) && (final(store)@, answered(out)) == submitted(
                old(store)@,
                oauth.consent_secret@,
                form.asked(),
                form.token@,
                #[trigger] hyphenated(n),
                now,
            ),
{
    let code = fresh_id();
    authorize_submit_with(oauth, store, form, code.as_str(), now)
}

/// A request to exchange a code for an access token.
#[derive(Debug)]
pub struct TokenRequest {
    pub grant_type: String,
    pub code: String,
    pub redirect_uri: String,
    pub code_verifier: String,
}

/// What a [`TokenRequest`] holds.
pub struct Exchange {
    pub grant_type: Seq<char>,
    pub code: Seq<char>,
    pub redirect_uri: Seq<char>,
    pub code_verifier: Seq<char>,
}

impl View for TokenRequest {
    type V = Exchange;

    open spec fn view(&self) -> Exchange {
        Exchange {
            grant_type: self.grant_type@,
            code: self.code@,
            redirect_uri: self.redirect_uri@,
            code_verifier: self.code_verifier@,
        }
    }
}

/// A grant that is not honoured, and why.
pub open spec fn invalid_grant(description: Seq<char>) -> Denied {
    Denied { status: 400, error: "invalid_grant"@, description }
}

/// The answer to another way of asking for a token.
pub open spec fn wrong_grant_type() -> Denied {
    Denied {
        status: 400,
        error: "unsupported_grant_type"@,
        description: "only authorization_code is supported"@,
    }
}

/// Requires that a request brings an authorization code.
pub fn check_grant_type(request: &TokenRequest) -> (out: Result<(), Refusal>)
    ensures
        match out {
            Ok(_) => request.grant_type@ == "authorization_code"@,
            Err(r) => request.grant_type@ != "authorization_code"@ && r@ == wrong_grant_type(),
        },
{
    if same_text(request.grant_type.as_str(), "authorization_code") {
        Ok(())
    } else {
        Err(oauth_error(400, "unsupported_grant_type", "only authorization_code is supported"))
    }
}

/// Why a code does not get its bearer a token, where it does not. `digest` is
/// the SHA-256 digest of the verifier that the bearer brings.
pub open spec fn grant_denied(
    pending: Option<Pending>,
    redirect_uri: Seq<char>,
    digest: Seq<u8>,
    now: Timestamp,
) -> Option<Denied> {
    match pending {
        None => Some(invalid_grant("unknown or already-used authorization code"@)),
        Some(p) => if p.expires_at.before(now) {
            Some(invalid_grant("authorization code has expired"@))
        } else if p.redirect_uri != redirect_uri {
            Some(invalid_grant("redirect_uri does not match the authorization request"@))
        } else if base64url(digest) != p.code_challenge {
            Some(invalid_grant("code_verifier does not match code_challenge"@))
        } else {
            None
        },
    }
}

/// Whether the code that was taken gets its bearer a token. `digest` is the
/// SHA-256 digest of the verifier.
pub fn check_grant(
    pending: &Option<PendingCode>,
    redirect_uri: &str,
    digest: &Vec<u8>,
    now: Timestamp,
) -> (out: Result<(), Refusal>)
    requires
        digest@.len() == 32,
    ensures
        match (
            grant_denied(
                (match pending {
                    Some(p) => Some(p@),
                    None => None,
                }),
                redirect_uri@,
                digest@,
                now,
            ),
            out,
        ) {
            (None, Ok(_)) => true,
            (Some(d), Err(r)) => r@ == d,
            _ => false,
        },
        out is Ok ==> (pending matches Some(p) && p.code_challenge@.len() == 43),
{
    match pending {
        None => Err(
            oauth_error(400, "invalid_grant", "unknown or already-used authorization code"),
        ),
        Some(p) => {
            if p.expires_at.is_before(&now) {
                Err(oauth_error(400, "invalid_grant", "authorization code has expired"))
            } else if !same_text(p.redirect_uri.as_str(), redirect_uri) {
                Err(
                    oauth_error(
                        400,
                        "invalid_grant",
                        "redirect_uri does not match the authorization request",
                    ),
                )
            } else if !digest_answers(digest, p.code_challenge.as_str()) {
                Err(
                    oauth_error(
                        400,
                        "invalid_grant",
                        "code_verifier does not match code_challenge",
                    ),
                )
            } else {
                Ok(())
            }
        },
    }
}

/// Whether the code that was taken gets the bearer of a request a token. One that
/// was issued without a challenge of this kind never does, whatever the verifier.
pub fn redeem(pending: &Option<PendingCode>, request: &TokenRequest, now: Timestamp) -> (out: Result<
    (),
    Refusal,
>)
    ensures
        match (
            grant_denied(
                (match pending {
                    Some(p) => Some(p@),
                    None => None,
                }),
                request.redirect_uri@,
                sha256(encode_utf8(request.code_verifier@)),
                now,
            ),
            out,
        ) {
            (None, Ok(_)) => true,
            (Some(d), Err(r)) => r@ == d,
            _ => false,
        },
        out is Ok ==> (pending matches Some(p) && p.code_challenge@.len() == 43),
{
    let digest = sha256_digest(request.code_verifier.as_str().as_bytes());
    check_grant(pending, request.redirect_uri.as_str(), &digest, now)
}

/// The answer that hands an access token out.
pub open spec fn issued_token(token: Seq<char>) -> Data {
    Data::Object(
        seq![
            ("access_token"@, Data::Text(token)),
            ("token_type"@, Data::Text("Bearer"@)),
            ("expires_in"@, Data::Number(decimal(TOKEN_TTL as nat))),
            ("scope"@, Data::Text("mcp"@)),
        ],
    )
}

/// Hands an access token out.
pub fn token_reply(token: &str) -> (j: Json)
    ensures
        j@ == issued_token(token@),
{
    let f = Fields::new();
    let f = f.with("access_token", Json::text(token));
    let f = f.with("token_type", Json::text("Bearer"));
    let f = f.with("expires_in", Json::Number(decimal_text(TOKEN_TTL)));
    let f = f.with("scope", Json::text("mcp"));
    assert(f@ =~= issued_token(token@)->Object_0);
    f.done()
}

/// When an access token that is issued now expires.
pub fn token_expiry(now: Timestamp) -> (t: Timestamp)
    requires
        now.secs + TOKEN_TTL <= i64::MAX,
    ensures
        t == later(now, TOKEN_TTL),
{
    now.plus_secs(TOKEN_TTL)
}

/// The rows and the answer after a code is exchanged for the given token. The
/// code is gone whether or not it got a token.
pub open spec fn exchanged(t: Tables, request: Exchange, token: Seq<char>, now: Timestamp) -> (
    Tables,
    Result<Data, Denied>,
) {
    if request.grant_type != "authorization_code"@ {
        (t, Err(wrong_grant_type()))
    } else {
        let rest = t.without_code(request.code);
        match grant_denied(
            t.pending(request.code),
            request.redirect_uri,
            sha256(encode_utf8(request.code_verifier)),
            now,
        ) {
            Some(d) => (rest, Err(d)),
            None => if t.tokens.contains_key(token) {
                (rest, Err(failed(Trouble::RecordToken)))
            } else {
                (
                    rest.with_token(token, epoch(later(now, TOKEN_TTL))),
                    Ok(issued_token(token)),
                )
            },
        }
    }
}

/// Exchanges a code for the given access token.
pub fn token_with(store: &mut Store, request: &TokenRequest, access_token: &str, now: Timestamp) -> (out:
    Result<Json, Refusal>)
    requires
        old(store).wf(),
        now.secs + TOKEN_TTL <= i64::MAX,
    ensures
        final(store).wf(),
        final(store).loaded() == old(store).loaded(),
        (final(store)@, replied(out)) == exchanged(old(store)@, request@, access_token@, now),
        ({
            let t = old(store)@;
            let after = final(store)@;
            let pending = t.pending(request.code@);
            &&& out is Ok <==> request.grant_type@ == "authorization_code"@ && (pending matches Some(
                p,
            ) && !p.expires_at.before(now) && p.redirect_uri == request.redirect_uri@
                && p.code_challenge == crate::pkce::challenge(request.code_verifier@))
                && !t.tokens.contains_key(access_token@)
            &&& out is Ok ==> after.tokens.contains_key(access_token@)
                && after.tokens[access_token@].0 == (if now.secs + 2_592_000 < 0 {
                0int
            } else {
                now.secs + 2_592_000
            })
            &&& out is Err ==> after.tokens == t.tokens
            &&& request.grant_type@ == "authorization_code"@ ==> !after.codes.contains_key(
                request.code@,
            )
        }),
{
    proof {
        law_exchange_outcome(store@, request@, access_token@, now);
    }
    match check_grant_type(request) {
        Err(r) => {
            return Err(r);
        },
        Ok(_) => {},
    }
    let pending = store.take_code(request.code.as_str());
    match redeem(&pending, request, now) {
        Err(r) => {
            return Err(r);
        },
        Ok(_) => {},
    }
    match store.store_token(access_token, token_expiry(now)) {
        Err(_) => Err(server_error(Trouble::RecordToken)),
        Ok(_) => Ok(token_reply(access_token)),
    }
}

/// Exchanges a code for an access token chosen at random.
pub fn token(store: &mut Store, request: &TokenRequest, now: Timestamp) -> (out: Result<
    Json,
    Refusal,
>)
    requires
        old(store).wf(),
        now.secs + TOKEN_TTL <= i64::MAX,
    ensures
        final(store).wf(),
        final(store).loaded() == old(store).loaded(),
        exists|n: u128|
            is_random_id(n) && (final(store)@, replied(out)) == exchanged(
                old(store)@,
                request@,
                #[trigger] simple(n),
                now,
            ),
{
    let access_token = fresh_token();
    token_with(store, request, access_token.as_str(), now)
}

/// The characters of the four escapes.
proof fn lemma_escapes()
    ensures
        escaped_char('&') == seq!['&', 'a', 'm', 'p', ';'],
        escaped_char('<') == seq!['&', 'l', 't', ';'],
        escaped_char('>') == seq!['&', 'g', 't', ';'],
        escaped_char('"') == seq!['&', 'q', 'u', 'o', 't', ';'],
{
    reveal_strlit("&amp;");
    reveal_strlit("&lt;");
    reveal_strlit("&gt;");
    reveal_strlit("&quot;");
    assert(escaped_char('&') =~= seq!['&', 'a', 'm', 'p', ';']);
    assert(escaped_char('<') =~= seq!['&', 'l', 't', ';']);
    assert(escaped_char('>') =~= seq!['&', 'g', 't', ';']);
    assert(escaped_char('"') =~= seq!['&', 'q', 'u', 'o', 't', ';']);
}

/// Whatever a client sends, the markup that shows it can neither open nor close
/// a tag, nor end the attribute that it stands in.
pub proof fn law_escaped_is_inert(s: Seq<char>)
    ensures
        forall|i: int|
            0 <= i < escaped(s).len() ==> #[trigger] escaped(s)[i] != '<' && escaped(s)[i] != '>'
                && escaped(s)[i] != '"',
    decreases s.len(),
{
    if s.len() > 0 {
        law_escaped_is_inert(s.drop_last());
        lemma_escapes();
        let head = escaped(s.drop_last());
        let tail = escaped_char(s.last());
        assert forall|i: int| 0 <= i < escaped(s).len() implies #[trigger] escaped(s)[i] != '<'
            && escaped(s)[i] != '>' && escaped(s)[i] != '"' by {
            if i < head.len() {
                assert(escaped(s)[i] == head[i]);
            } else {
                assert(escaped(s)[i] == tail[i - head.len()]);
            }
        }
    }
}

/// Markup can be read from its front as well.
proof fn lemma_escaped_front(s: Seq<char>)
    requires
        s.len() > 0,
    ensures
        escaped(s) == escaped_char(s[0]) + escaped(s.drop_first()),
    decreases s.len(),
{
    if s.len() == 1 {
        assert(s.drop_last() =~= seq![]);
        assert(s.drop_first() =~= seq![]);
        assert(escaped(s) =~= escaped_char(s[0]) + escaped(s.drop_first()));
    } else {
        lemma_escaped_front(s.drop_last());
        assert(s.drop_last().drop_first() =~= s.drop_first().drop_last());
        assert(s.drop_first().last() == s.last());
        assert(escaped(s) =~= escaped_char(s[0]) + escaped(s.drop_first()));
    }
}

/// Two texts that are shown by the same markup are the same: the page carries
/// every request back as it came.
pub proof fn law_escape_loses_nothing(a: Seq<char>, b: Seq<char>)
    requires
        escaped(a) == escaped(b),
    ensures
        a == b,
    decreases a.len(),
{
    lemma_escapes();
    if a.len() > 0 {
        lemma_escaped_front(a);
    }
    if b.len() > 0 {
        lemma_escaped_front(b);
    }
    if a.len() == 0 || b.len() == 0 {
        assert(escaped(a).len() == 0);
        assert(escaped(b).len() == 0);
        assert(a =~= b);
    } else {
        let x = escaped_char(a[0]);
        let y = escaped_char(b[0]);
        let whole = escaped(a);
        assert(whole[0] == x[0] && whole[0] == y[0]);
        if whole[0] == '&' {
            assert(whole[1] == x[1] && whole[1] == y[1]);
        }
        assert(a[0] == b[0]);
        assert(escaped(a.drop_first()) =~= whole.skip(x.len() as int));
        assert(escaped(b.drop_first()) =~= whole.skip(x.len() as int));
        law_escape_loses_nothing(a.drop_first(), b.drop_first());
        assert(a =~= seq![a[0]] + a.drop_first());
        assert(b =~= seq![b[0]] + b.drop_first());
    }
}

/// Nobody gets a code without the secret: rows change, and a client is sent
/// back, only for the right token and for an address that the client registered.
pub proof fn law_code_needs_consent(
    t: Tables,
    secret: Seq<char>,
    asked: Asked,
    presented: Seq<char>,
    code: Seq<char>,
    now: Timestamp,
)
    ensures
        ({
            let (after, out) = submitted(t, secret, asked, presented, code, now);
            (after != t || out matches Ok(Answered::Redirect { .. })) ==> trimmed(presented)
                == secret && t.clients.contains((asked.client_id, asked.redirect_uri))
        }),
{
}

/// Nobody gets a token without a code that is known, has not expired, was issued
/// for the same address, and whose challenge the verifier answers.
pub proof fn law_token_needs_code(
    t: Tables,
    request: Exchange,
    token: Seq<char>,
    now: Timestamp,
)
    ensures
        ({
            let (after, out) = exchanged(t, request, token, now);
            (after.tokens != t.tokens || out is Ok) ==> (t.pending(request.code) matches Some(p)
                && !p.expires_at.before(now) && p.redirect_uri == request.redirect_uri
                && p.code_challenge == crate::pkce::challenge(request.code_verifier))
        }),
{
}

/// A code is spent by its first exchange, also by one that fails: the same
/// request is then refused as unknown.
pub proof fn law_code_is_spent(
    t: Tables,
    request: Exchange,
    token: Seq<char>,
    again: Exchange,
    other: Seq<char>,
    now: Timestamp,
    later: Timestamp,
)
    requires
        request.grant_type == "authorization_code"@,
        again.grant_type == "authorization_code"@,
        again.code == request.code,
    ensures
        ({
            let (after, _) = exchanged(t, request, token, now);
            exchanged(after, again, other, later).1 == Err::<Data, Denied>(
                invalid_grant("unknown or already-used authorization code"@),
            )
        }),
{
}

/// A client that registered, gave the right token, and brings the verifier of
/// its challenge within ten minutes, counted from the start of the second of its
/// consent, gets an access token. The token is then valid for thirty days,
/// counted in the same way, and no longer.
pub proof fn law_flow_admits(
    t: Tables,
    secret: Seq<char>,
    asked: Asked,
    presented: Seq<char>,
    code: Seq<char>,
    verifier: Seq<char>,
    token: Seq<char>,
    consented: Timestamp,
    redeemed: Timestamp,
    now: i64,
)
    requires
        t.clients.contains((asked.client_id, asked.redirect_uri)),
        trimmed(presented) == secret,
        asked.code_challenge == crate::pkce::challenge(verifier),
        !t.codes.contains_key(code),
        !t.tokens.contains_key(token),
        0 <= consented.secs,
        consented.secs + CODE_TTL <= i64::MAX,
        0 <= redeemed.secs,
        redeemed.secs < consented.secs + CODE_TTL || (redeemed.secs == consented.secs + CODE_TTL
            && redeemed.nanos == 0),
        redeemed.secs + TOKEN_TTL <= i64::MAX,
    ensures
        ({
            let request = Exchange {
                grant_type: "authorization_code"@,
                code,
                redirect_uri: asked.redirect_uri,
                code_verifier: verifier,
            };
            let (agreed, sent) = submitted(t, secret, asked, presented, code, consented);
            let (after, out) = exchanged(agreed, request, token, redeemed);
            &&& sent == Ok::<Answered, Denied>(sent_back(asked, code))
            &&& out == Ok::<Data, Denied>(issued_token(token))
            &&& after.token_valid(token, now) == (now < redeemed.secs + TOKEN_TTL)
        }),
{
    assert(t.knows(asked.client_id));
}

/// A code gets nobody a token once the second that it expires in has begun to
/// pass, ten minutes after it was issued.
pub proof fn law_code_expires(
    t: Tables,
    secret: Seq<char>,
    asked: Asked,
    presented: Seq<char>,
    code: Seq<char>,
    request: Exchange,
    token: Seq<char>,
    consented: Timestamp,
    redeemed: Timestamp,
)
    requires
        !t.codes.contains_key(code),
        request.code == code,
        0 <= consented.secs,
        consented.secs + CODE_TTL < redeemed.secs || (consented.secs + CODE_TTL == redeemed.secs
            && redeemed.nanos > 0),
    ensures
        ({
            let (agreed, _) = submitted(t, secret, asked, presented, code, consented);
            exchanged(agreed, request, token, redeemed).1 is Err
        }),
{
}

/// Whether a client may use a redirect address is a matter of its having
/// registered that very address; one that never registered is told apart.
pub proof fn law_client_denied(t: Tables, client_id: Seq<char>, redirect_uri: Seq<char>)
    ensures
        client_denied(t, client_id, redirect_uri) is None <==> t.clients.contains(
            (client_id, redirect_uri),
        ),
        client_denied(t, client_id, redirect_uri) matches Some(d) ==> d.status == 400 && d.error == (
        if exists|u: Seq<char>| t.clients.contains((client_id, u)) {
            "invalid_request"@
        } else {
            "invalid_client"@
        }),
{
    if t.clients.contains((client_id, redirect_uri)) {
        assert(t.knows(client_id));
    }
}

/// A registration needs an address. It adds the addresses that it asks for, for
/// its client alone, and the answer names that client and those addresses.
pub proof fn law_registration_outcome(t: Tables, body: Data, client_id: Seq<char>)
    ensures
        ({
            let (after, out) = registering(t, body, client_id);
            let uris = texts_under(body, "redirect_uris"@);
            &&& out is Ok <==> uris.len() > 0
            &&& out is Err ==> after == t
            &&& out is Ok ==> forall|c: Seq<char>, u: Seq<char>| #[trigger]
                after.clients.contains((c, u)) <==> t.clients.contains((c, u)) || (c == client_id
                    && uris.contains(u))
            &&& after.codes == t.codes && after.tokens == t.tokens && after.sessions == t.sessions
            &&& out matches Ok(d) ==> (d matches Data::Object(f) && f[0] == (
                "client_id"@,
                Data::Text(client_id),
            ) && f[1].0 == "redirect_uris"@ && (f[1].1 matches Data::Array(v) && v.len()
                == uris.len() && forall|i: int|
                0 <= i < v.len() ==> #[trigger] v[i] == Data::Text(uris[i])))
        }),
{
}

/// The consent page is shown to a client for an address that it registered, where
/// it brings a challenge of the one kind that is supported.
pub proof fn law_form_is_shown(t: Tables, asked: Asked)
    ensures
        form(t, asked) is Ok <==> t.clients.contains((asked.client_id, asked.redirect_uri))
            && asked.code_challenge_method == "S256"@ && asked.code_challenge.len() > 0,
        form(t, asked) matches Ok(html) ==> html == page(asked, None),
        form(t, asked) matches Err(d) ==> d.status == 400,
{
    law_client_denied(t, asked.client_id, asked.redirect_uri);
}

/// What is sent back to a client: its address, then the code, then its state where
/// it gave one, each as it is. The separator is the one that the address calls
/// for.
pub proof fn law_location(redirect_uri: Seq<char>, state: Seq<char>, code: Seq<char>)
    ensures
        ({
            let to = location(redirect_uri, state, code);
            let query = to.skip(redirect_uri.len() as int);
            &&& redirect_uri.is_prefix_of(to)
            &&& query[0] == if redirect_uri.contains('?') {
                '&'
            } else {
                '?'
            }
            &&& query.drop_first() == "code="@ + code + (if state.len() == 0 {
                seq![]
            } else {
                "&state="@ + state
            })
        }),
{
    let to = location(redirect_uri, state, code);
    assert(to.subrange(0, redirect_uri.len() as int) =~= redirect_uri);
    let query = to.skip(redirect_uri.len() as int);
    assert(query.drop_first() =~= "code="@ + code + (if state.len() == 0 {
        seq![]
    } else {
        "&state="@ + state
    }));
}

/// What comes of a consent page that was sent. The right token gets a registered
/// client the code, which stands for what the client asked and lasts ten minutes;
/// a wrong one gets the page again, and changes nothing.
pub proof fn law_consent_outcome(
    t: Tables,
    secret: Seq<char>,
    asked: Asked,
    presented: Seq<char>,
    code: Seq<char>,
    now: Timestamp,
)
    requires
        now.secs + 600 <= i64::MAX,
    ensures
        ({
            let (after, out) = submitted(t, secret, asked, presented, code, now);
            let registered = t.clients.contains((asked.client_id, asked.redirect_uri));
            let agreed = registered && trimmed(presented) == secret;
            &&& agreed && !t.codes.contains_key(code) ==> (out matches Ok(
                Answered::Redirect { status, location: to, .. },
            ) && status == 302 && to == location(asked.redirect_uri, asked.state, code))
            &&& agreed && !t.codes.contains_key(code) ==> after.codes.dom() == t.codes.dom().insert(
                code,
            ) && after.codes[code].0 == (if now.secs + 600 < 0 {
                0int
            } else {
                now.secs + 600
            }) && after.codes[code].1.client_id == asked.client_id
                && after.codes[code].1.redirect_uri == asked.redirect_uri
                && after.codes[code].1.code_challenge == asked.code_challenge
            &&& forall|k: Seq<char>|
                k != code && #[trigger] t.codes.contains_key(k) ==> after.codes[k] == t.codes[k]
            &&& agreed && t.codes.contains_key(code) ==> after == t && (out matches Err(d)
                && d.status == 500)
            &&& registered && !agreed ==> after == t && (out matches Ok(
                Answered::Page { status, html },
            ) && status == 401 && html == page(asked, Some("That token is not correct."@)))
            &&& !registered ==> after == t && (out matches Err(d) && d.status == 400)
            &&& after.clients == t.clients && after.tokens == t.tokens && after.sessions
                == t.sessions
        }),
{
    law_client_denied(t, asked.client_id, asked.redirect_uri);
    let (after, _) = submitted(t, secret, asked, presented, code, now);
    if t.clients.contains((asked.client_id, asked.redirect_uri)) && trimmed(presented) == secret
        && !t.codes.contains_key(code) {
        assert(after.codes.dom() =~= t.codes.dom().insert(code));
    }
}

/// What comes of a code that is exchanged. It has to be known, not past its
/// expiry, brought for the address that it was issued for, and with the verifier
/// that its challenge was made from. Then the token is written down, for thirty
/// days, and handed out. The code is gone either way; other rows stay.
pub proof fn law_exchange_outcome(t: Tables, request: Exchange, token: Seq<char>, now: Timestamp)
    requires
        now.secs + 2_592_000 <= i64::MAX,
    ensures
        ({
            let (after, out) = exchanged(t, request, token, now);
            let (stamp, grant) = t.codes[request.code];
            let until: int = if stamp < 0 {
                0
            } else {
                stamp as int
            };
            let late = until < now.secs || (until == now.secs && 0 < now.nanos);
            let known = t.codes.contains_key(request.code);
            let due = request.grant_type == "authorization_code"@;
            let right = known && !late && grant.redirect_uri == request.redirect_uri
                && grant.code_challenge == crate::pkce::challenge(request.code_verifier);
            &&& out is Ok <==> due && right && !t.tokens.contains_key(token)
            &&& after.tokens == if out is Ok {
                t.tokens.insert(
                    token,
                    (
                        (if now.secs + 2_592_000 < 0 {
                            0
                        } else {
                            (now.secs + 2_592_000) as i64
                        }),
                        (),
                    ),
                )
            } else {
                t.tokens
            }
            &&& after.codes == if due {
                t.codes.remove(request.code)
            } else {
                t.codes
            }
            &&& after.clients == t.clients && after.sessions == t.sessions
            &&& out matches Ok(d) ==> (d matches Data::Object(f) && f.len() == 4 && f[0] == (
                "access_token"@,
                Data::Text(token),
            ) && f[1] == ("token_type"@, Data::Text("Bearer"@)) && f[2] == (
                "expires_in"@,
                Data::Number(decimal(2_592_000)),
            ) && f[3] == ("scope"@, Data::Text("mcp"@)))
            &&& out matches Err(d) ==> d.error == (if !due {
                "unsupported_grant_type"@
            } else if right {
                "server_error"@
            } else {
                "invalid_grant"@
            })
            &&& due && !right ==> (out matches Err(d) && d.status == 400 && d.description == (
            if !known {
                "unknown or already-used authorization code"@
            } else if late {
                "authorization code has expired"@
            } else if grant.redirect_uri != request.redirect_uri {
                "redirect_uri does not match the authorization request"@
            } else {
                "code_verifier does not match code_challenge"@
            }))
        }),
{
}

/// Where two texts go on with the same character, which neither holds, they are
/// the same, and so is what follows.
proof fn lemma_same_up_to(a: Seq<char>, b: Seq<char>, c: char, x: Seq<char>, y: Seq<char>)
    requires
        a + seq![c] + x == b + seq![c] + y,
        !a.contains(c),
        !b.contains(c),
    ensures
        a == b,
        x == y,
{
    let p = a + seq![c] + x;
    let q = b + seq![c] + y;
    if a.len() < b.len() {
        assert(p[a.len() as int] == c);
        assert(q[a.len() as int] == b[a.len() as int]);
        assert(b.contains(b[a.len() as int]));
    }
    if b.len() < a.len() {
        assert(q[b.len() as int] == c);
        assert(p[b.len() as int] == a[b.len() as int]);
        assert(a.contains(a[b.len() as int]));
    }
    assert(p.take(a.len() as int) =~= a);
    assert(q.take(b.len() as int) =~= b);
    assert(p.skip(a.len() as int + 1) =~= x);
    assert(q.skip(b.len() as int + 1) =~= y);
}

/// A hidden field of the page gives its value back: what stands before it is the
/// same on both pages, and a quote ends it.
proof fn lemma_same_field(
    front: Seq<char>,
    a: Seq<char>,
    b: Seq<char>,
    mark: Seq<char>,
    x: Seq<char>,
    y: Seq<char>,
)
    requires
        mark.len() > 0,
        mark[0] == '"',
        front + escaped(a) + mark + x == front + escaped(b) + mark + y,
    ensures
        a == b,
        x == y,
{
    law_escaped_is_inert(a);
    law_escaped_is_inert(b);
    let n = front.len() as int;
    let p = escaped(a) + mark + x;
    let q = escaped(b) + mark + y;
    assert((front + escaped(a) + mark + x).skip(n) =~= p);
    assert((front + escaped(b) + mark + y).skip(n) =~= q);
    let after = mark.drop_first();
    assert(p =~= escaped(a) + seq!['"'] + (after + x));
    assert(q =~= escaped(b) + seq!['"'] + (after + y));
    if escaped(a).contains('"') {
        let i = choose|i: int| 0 <= i < escaped(a).len() && escaped(a)[i] == '"';
        assert(escaped(a)[i] != '"');
    }
    if escaped(b).contains('"') {
        let i = choose|i: int| 0 <= i < escaped(b).len() && escaped(b)[i] == '"';
        assert(escaped(b)[i] != '"');
    }
    lemma_same_up_to(escaped(a), escaped(b), '"', after + x, after + y);
    law_escape_loses_nothing(a, b);
    assert((after + x).skip(after.len() as int) =~= x);
    assert((after + y).skip(after.len() as int) =~= y);
}

/// Texts are joined in any grouping.
proof fn lemma_regroup(a: Seq<char>, b: Seq<char>, c: Seq<char>)
    ensures
        a + b + c == a + (b + c),
{
    assert(a + b + c =~= a + (b + c));
}

/// What stands between the fields of the page starts with the quote that ends the
/// field before it.
proof fn lemma_marks()
    ensures
        ({
            let uri = "\">\n  <input type=\"hidden\" name=\"redirect_uri\" value=\""@;
            let state = "\">\n  <input type=\"hidden\" name=\"state\" value=\""@;
            let key = "\">\n  <input type=\"hidden\" name=\"code_challenge\" value=\""@;
            &&& uri.len() > 0 && uri[0] == '"'
            &&& state.len() > 0 && state[0] == '"'
            &&& key.len() > 0 && key[0] == '"'
            &&& PAGE_TAIL@.len() > 0 && PAGE_TAIL@[0] == '"'
        }),
{
    reveal_strlit("\">\n  <input type=\"hidden\" name=\"redirect_uri\" value=\"");
    reveal_strlit("\">\n  <input type=\"hidden\" name=\"state\" value=\"");
    reveal_strlit("\">\n  <input type=\"hidden\" name=\"code_challenge\" value=\"");
    reveal_strlit(
        "\">\n  <input type=\"hidden\" name=\"code_challenge_method\" value=\"S256\">\n  <input type=\"password\" name=\"token\" placeholder=\"Server token\" autofocus required>\n  <button type=\"submit\">Allow</button>\n</form>\n</body>\n</html>",
    );
}

/// The page carries the request along as it came: two requests that are shown the
/// same page ask for the same.
pub proof fn law_page_carries_request(a: Asked, b: Asked, error: Option<Seq<char>>)
    requires
        page(a, error) == page(b, error),
    ensures
        a.client_id == b.client_id,
        a.redirect_uri == b.redirect_uri,
        a.state == b.state,
        a.code_challenge == b.code_challenge,
{
    lemma_marks();
    let head = PAGE_HEAD@ + page_message(error)
        + "\n  <input type=\"hidden\" name=\"client_id\" value=\""@;
    let uri = "\">\n  <input type=\"hidden\" name=\"redirect_uri\" value=\""@;
    let state = "\">\n  <input type=\"hidden\" name=\"state\" value=\""@;
    let key = "\">\n  <input type=\"hidden\" name=\"code_challenge\" value=\""@;
    let a2 = page_rest(a.redirect_uri, state, a.state, key, a.code_challenge);
    let b2 = page_rest(b.redirect_uri, state, b.state, key, b.code_challenge);
    lemma_page_parts(head, a, uri, state, key);
    lemma_page_parts(head, b, uri, state, key);
    assert(page(a, error) == head + escaped(a.client_id) + uri + a2);
    assert(page(b, error) == head + escaped(b.client_id) + uri + b2);
    lemma_same_field(head, a.client_id, b.client_id, uri, a2, b2);
    let none: Seq<char> = seq![];
    let a3 = escaped(a.state) + key + (escaped(a.code_challenge) + PAGE_TAIL@);
    let b3 = escaped(b.state) + key + (escaped(b.code_challenge) + PAGE_TAIL@);
    lemma_from_empty(a.redirect_uri, state, a3);
    lemma_from_empty(b.redirect_uri, state, b3);
    lemma_same_field(none, a.redirect_uri, b.redirect_uri, state, a3, b3);
    let a4 = escaped(a.code_challenge) + PAGE_TAIL@;
    let b4 = escaped(b.code_challenge) + PAGE_TAIL@;
    lemma_from_empty(a.state, key, a4);
    lemma_from_empty(b.state, key, b4);
    lemma_same_field(none, a.state, b.state, key, a4, b4);
    lemma_from_empty(a.code_challenge, PAGE_TAIL@, none);
    lemma_from_empty(b.code_challenge, PAGE_TAIL@, none);
    assert(a4 + none =~= a4);
    assert(b4 + none =~= b4);
    lemma_same_field(none, a.code_challenge, b.code_challenge, PAGE_TAIL@, none, none);
}

/// The page behind the field of the client.
spec fn page_rest(
    redirect_uri: Seq<char>,
    before_state: Seq<char>,
    state: Seq<char>,
    before_key: Seq<char>,
    key: Seq<char>,
) -> Seq<char> {
    escaped(redirect_uri) + before_state + (escaped(state) + before_key + (escaped(key)
        + PAGE_TAIL@))
}

/// Nothing in front of a field changes nothing.
proof fn lemma_from_empty(a: Seq<char>, mark: Seq<char>, rest: Seq<char>)
    ensures
        Seq::<char>::empty() + escaped(a) + mark + rest == escaped(a) + mark + rest,
{
    assert(Seq::<char>::empty() + escaped(a) =~= escaped(a));
}

/// The page, field by field.
proof fn lemma_page_parts(
    head: Seq<char>,
    asked: Asked,
    uri: Seq<char>,
    state: Seq<char>,
    key: Seq<char>,
)
    ensures
        head + escaped(asked.client_id) + uri + escaped(asked.redirect_uri) + state + escaped(
            asked.state,
        ) + key + escaped(asked.code_challenge) + PAGE_TAIL@ == head + escaped(asked.client_id)
            + uri + page_rest(asked.redirect_uri, state, asked.state, key, asked.code_challenge),
{
    let w = head + escaped(asked.client_id) + uri;
    let r = escaped(asked.redirect_uri);
    let s = escaped(asked.state);
    let c = escaped(asked.code_challenge);
    let tail = PAGE_TAIL@;
    let last = c + tail;
    let mid = s + key + last;
    lemma_regroup(w + r + state + s + key, c, tail);
    lemma_regroup(w + r + state, s, key);
    lemma_regroup(w + r + state, s + key, last);
    lemma_regroup(w, r, state);
    lemma_regroup(w, r + state, mid);
}

/// A text is shown character by character: four of them by their names, and every
/// other as it is.
pub proof fn law_escape_by_character(a: Seq<char>, b: Seq<char>, c: char)
    ensures
        escaped(a + b) == escaped(a) + escaped(b),
        escaped(seq!['&']) == "&amp;"@,
        escaped(seq!['<']) == "&lt;"@,
        escaped(seq!['>']) == "&gt;"@,
        escaped(seq!['"']) == "&quot;"@,
        c != '&' && c != '<' && c != '>' && c != '"' ==> escaped(seq![c]) == seq![c],
    decreases b.len(),
{
    assert forall|x: char| #[trigger] escaped(seq![x]) == escaped_char(x) by {
        assert(seq![x].drop_last() =~= seq![]);
        assert(escaped(seq![x].drop_last()) =~= seq![]);
        assert(escaped(seq![x]) =~= escaped_char(x));
    }
    if b.len() == 0 {
        assert(a + b =~= a);
        assert(escaped(a) + escaped(b) =~= escaped(a));
    } else {
        assert((a + b).drop_last() =~= a + b.drop_last());
        assert((a + b).last() == b.last());
        law_escape_by_character(a, b.drop_last(), c);
        assert(escaped(a + b) =~= escaped(a) + escaped(b));
    }
}

/// The message on a page is shown as text: it can hold no markup of its own.
pub proof fn law_page_message(e: Seq<char>)
    ensures
        page_message(None) == Seq::<char>::empty(),
        ({
            let m = page_message(Some(e));
            let open = "<p class=\"error\">"@;
            let close = "</p>"@;
            &&& m == open + m.subrange(open.len() as int, m.len() - close.len()) + close
            &&& m.subrange(open.len() as int, m.len() - close.len()) == escaped(e)
        }),
{
    let m = page_message(Some(e));
    let open = "<p class=\"error\">"@;
    let close = "</p>"@;
    assert(m.subrange(open.len() as int, m.len() - close.len()) =~= escaped(e));
}

} // verus!
