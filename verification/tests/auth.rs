use local_mcp::auth::{guard, token_matches, AuthState, Gate, Header, Ruling};
use local_mcp::clock::{Span, Timestamp};
use local_mcp::config::Config;
use local_mcp::json::Json;
use local_mcp::oauth::{authorize_submit, token, Answer, ConsentForm, OAuth, TokenRequest};
use local_mcp::path::AbsPath;
use local_mcp::pkce::challenge_of;
use local_mcp::root::Root;
use local_mcp::store::Store;

const TOKEN: &str = "0123456789abcdef";
const NOW: Timestamp = Timestamp { secs: 1_800_000_000, nanos: 0 };

fn config(origins: &[&str]) -> Config {
    Config {
        root: Root::new("/", Ok(AbsPath::top())).unwrap(),
        token: TOKEN.to_string(),
        bind: "127.0.0.1:0".to_string(),
        allowed_hosts: Vec::new(),
        allowed_origins: origins.iter().map(|o| o.to_string()).collect(),
        public_url: None,
        state_db: "/var/lib/local-mcp/oauth.db".to_string(),
        max_output: 4096,
        command_timeout: Span::from_secs(5),
        allow_exec: true,
        job_retention: Span::from_secs(3600),
        session_keep_alive: None,
        session_retention: Span::from_secs(60 * 60 * 24 * 30),
    }
}

fn state(origins: &[&str], oauth: bool) -> AuthState {
    AuthState {
        config: config(origins),
        oauth: if oauth {
            Some(OAuth::new("https://mcp.example.com".to_string(), TOKEN.to_string()))
        } else {
            None
        },
    }
}

fn store() -> Store {
    Store::open(vec![], vec![], vec![], vec![]).unwrap()
}

fn text(value: &str) -> Header {
    Header::Text(value.to_string())
}

#[test]
fn matches_only_the_exact_token() {
    assert!(token_matches("supersecrettoken", "supersecrettoken"));
    assert!(!token_matches("supersecrettoken", "supersecrettoke"));
    assert!(!token_matches("supersecrettoken", "supersecrettokenX"));
    assert!(!token_matches("supersecrettoken", ""));
}

#[test]
fn the_configured_token_passes_and_leaves_the_rows_alone() {
    let mut rows = store();
    let bearer = text("Bearer 0123456789abcdef");
    let ruling = guard(&state(&[], true), &mut rows, &Header::Absent, &bearer, NOW);
    assert!(matches!(ruling, Ruling::Pass));
    assert_eq!(rows.take_changes().len(), 0);
    let padded = text("Bearer   0123456789abcdef \t");
    let ruling = guard(&state(&[], false), &mut rows, &Header::Absent, &padded, NOW);
    assert!(matches!(ruling, Ruling::Pass));
}

#[test]
fn a_missing_or_malformed_token_is_refused() {
    let mut rows = store();
    for header in [
        Header::Absent,
        Header::Opaque,
        text(""),
        text("0123456789abcdef"),
        text("bearer 0123456789abcdef"),
        text("Bearer"),
        text("Bearer wrong-token"),
        text("Basic 0123456789abcdef"),
    ] {
        let ruling = guard(&state(&[], false), &mut rows, &Header::Absent, &header, NOW);
        assert!(
            matches!(ruling, Ruling::Unauthorized { challenge: None }),
            "{header:?} got through"
        );
    }
}

#[test]
fn a_refusal_says_where_the_flow_is_described() {
    let mut rows = store();
    let ruling = guard(&state(&[], true), &mut rows, &Header::Absent, &Header::Absent, NOW);
    match ruling {
        Ruling::Unauthorized { challenge: Some(value) } => assert_eq!(
            value,
            "Bearer resource_metadata=\"https://mcp.example.com/.well-known/oauth-protected-resource\""
        ),
        other => panic!("unexpected {other:?}"),
    }
}

#[test]
fn an_issued_token_passes_until_it_expires() {
    let mut rows = store();
    let expiry = Timestamp { secs: NOW.secs + 60, nanos: 0 };
    assert_eq!(rows.store_token("issued", expiry), Ok(()));
    let bearer = text("Bearer issued");
    let state_with = state(&[], true);
    assert!(matches!(
        guard(&state_with, &mut rows, &Header::Absent, &bearer, NOW),
        Ruling::Pass
    ));
    // Without the flow, only the configured token counts.
    assert!(matches!(
        guard(&state(&[], false), &mut rows, &Header::Absent, &bearer, NOW),
        Ruling::Unauthorized { challenge: None }
    ));
    assert!(matches!(
        guard(&state_with, &mut rows, &Header::Absent, &bearer, expiry),
        Ruling::Unauthorized { challenge: Some(_) }
    ));
}

#[test]
fn rows_that_cannot_be_read_deny() {
    let closed = state(&[], false);
    assert!(matches!(closed.screen(&Header::Absent, &Header::Absent), Gate::NoToken));
    assert!(matches!(closed.screen(&Header::Absent, &text("Bearer x")), Gate::WrongToken));
    let state = state(&[], true);
    let gate = state.screen(&Header::Absent, &text("Bearer issued"));
    assert!(matches!(&gate, Gate::Check(t) if t == "issued"));
    assert!(matches!(state.decide(&gate, false), Ruling::Unauthorized { .. }));
    assert!(matches!(state.decide(&gate, true), Ruling::Pass));
}

#[test]
fn origins_are_checked_only_where_they_are_configured() {
    let mut rows = store();
    let bearer = text("Bearer 0123456789abcdef");
    let open = state(&[], false);
    for origin in [Header::Absent, Header::Opaque, text("https://evil.example")] {
        assert!(matches!(guard(&open, &mut rows, &origin, &bearer, NOW), Ruling::Pass));
    }
    let strict = state(&["https://a.example", "https://b.example"], false);
    for origin in [Header::Absent, text("https://a.example"), text("https://b.example")] {
        assert!(matches!(guard(&strict, &mut rows, &origin, &bearer, NOW), Ruling::Pass));
    }
    for origin in [Header::Opaque, text("https://evil.example"), text("")] {
        // Refused before the token is looked at.
        assert!(matches!(
            guard(&strict, &mut rows, &origin, &Header::Absent, NOW),
            Ruling::Forbidden
        ));
        assert!(matches!(guard(&strict, &mut rows, &origin, &bearer, NOW), Ruling::Forbidden));
    }
}

#[test]
fn the_whole_flow_leads_past_the_guard() {
    let verifier = "a-verifier-long-enough-to-be-realistic-0123456789";
    let state = state(&[], true);
    let oauth = state.oauth.as_ref().unwrap();
    let mut rows = store();
    rows.register_client("client", &vec!["https://example.com/cb".to_string()]);
    let form = ConsentForm {
        client_id: "client".to_string(),
        redirect_uri: "https://example.com/cb".to_string(),
        state: String::new(),
        code_challenge: challenge_of(verifier),
        code_challenge_method: "S256".to_string(),
        token: TOKEN.to_string(),
    };
    let location = match authorize_submit(oauth, &mut rows, &form, NOW).unwrap() {
        Answer::Redirect { location, .. } => location,
        other => panic!("unexpected {other:?}"),
    };
    let code = location.strip_prefix("https://example.com/cb?code=").unwrap();
    let request = TokenRequest {
        grant_type: "authorization_code".to_string(),
        code: code.to_string(),
        redirect_uri: "https://example.com/cb".to_string(),
        code_verifier: verifier.to_string(),
    };
    let reply = token(&mut rows, &request, NOW).unwrap();
    let issued = match reply.get("access_token") {
        Some(Json::Text(t)) => t.clone(),
        other => panic!("unexpected {other:?}"),
    };
    let bearer = text(&format!("Bearer {issued}"));
    let last = Timestamp { secs: NOW.secs + 2_592_000 - 1, nanos: 999 };
    let end = Timestamp { secs: NOW.secs + 2_592_000, nanos: 0 };
    assert!(matches!(guard(&state, &mut rows, &Header::Absent, &bearer, last), Ruling::Pass));
    assert!(matches!(
        guard(&state, &mut rows, &Header::Absent, &bearer, end),
        Ruling::Unauthorized { .. }
    ));
}
