use local_mcp::clock::Span;
use local_mcp::config::{
    bind_address, locate, log_filter, root_dir, state_db, Config, ConfigError, Place, Vars,
};
use local_mcp::path::AbsPath;

fn unset() -> Vars {
    Vars {
        root: None,
        token: None,
        bind: None,
        allowed_hosts: None,
        allowed_origins: None,
        public_url: None,
        state_db: None,
        max_output: None,
        command_timeout: None,
        allow_exec: None,
    }
}

fn vars() -> Vars {
    Vars { token: set("0123456789abcdef"), ..unset() }
}

fn set(value: &str) -> Option<String> {
    Some(value.to_string())
}

fn path(p: &str) -> AbsPath {
    AbsPath::parse(p.as_bytes()).unwrap()
}

fn outside() -> Place {
    Place {
        lexical: Some(path("/var/lib/local-mcp/oauth.db")),
        real_path: Some(path("/var/lib/local-mcp/oauth.db")),
    }
}

fn read(vars: &Vars) -> Result<Config, ConfigError> {
    Config::from_env(vars, Ok(path("/workspace")), true, &outside())
}

fn refusal(vars: &Vars) -> String {
    read(vars).unwrap_err().message()
}

#[test]
fn the_defaults() {
    let config = read(&vars()).unwrap();
    assert_eq!(root_dir(&vars()), "/workspace");
    assert_eq!(config.root.path().to_bytes(), b"/workspace");
    assert_eq!(config.token, "0123456789abcdef");
    assert_eq!(config.bind, "0.0.0.0:8080");
    assert!(config.allowed_hosts.is_empty());
    assert!(config.allowed_origins.is_empty());
    assert_eq!(config.public_url, None);
    assert_eq!(config.state_db, "/var/lib/local-mcp/oauth.db");
    assert_eq!(config.max_output, 1_048_576);
    assert_eq!(config.command_timeout, Span::from_secs(30));
    assert!(config.allow_exec);
    assert_eq!(config.job_retention, Span::from_secs(3600));
    assert_eq!(config.session_keep_alive, None);
    assert_eq!(config.session_retention, Span::from_secs(60 * 60 * 24 * 30));
}

#[test]
fn every_variable_is_read() {
    let vars = Vars {
        root: set("/srv"),
        token: set("a-token-of-some-length"),
        bind: set("127.0.0.1:9"),
        allowed_hosts: set("a.example, b.example"),
        allowed_origins: set("https://a.example,,https://b.example"),
        public_url: set("https://mcp.example.com"),
        state_db: set("/data/x.db"),
        max_output: set("10"),
        command_timeout: set("+5"),
        allow_exec: set("no"),
    };
    assert_eq!(root_dir(&vars), "/srv");
    assert_eq!(bind_address(&vars), "127.0.0.1:9");
    assert_eq!(state_db(&vars), "/data/x.db");
    let config = read(&vars).unwrap();
    assert_eq!(config.bind, "127.0.0.1:9");
    assert_eq!(config.allowed_hosts, vec!["a.example", "b.example"]);
    assert_eq!(config.allowed_origins, vec!["https://a.example", "https://b.example"]);
    assert_eq!(config.public_url.as_deref(), Some("https://mcp.example.com"));
    assert_eq!(config.state_db, "/data/x.db");
    assert_eq!(config.max_output, 10);
    assert_eq!(config.command_timeout, Span::from_secs(5));
    assert!(!config.allow_exec);
}

#[test]
fn a_blank_variable_counts_as_not_set() {
    let blank = Vars { root: set("  "), bind: set(""), max_output: set("\t"), ..vars() };
    assert_eq!(root_dir(&blank), "/workspace");
    assert_eq!(bind_address(&blank), "0.0.0.0:8080");
    assert_eq!(read(&blank).unwrap().max_output, 1_048_576);
    assert!(matches!(read(&Vars { token: set(" "), ..vars() }), Err(ConfigError::NoToken)));
}

#[test]
fn only_three_words_disable_the_shell() {
    for (word, allowed) in
        [("false", false), ("0", false), ("no", false), ("False", true), ("true", true), ("off", true)]
    {
        let vars = Vars { allow_exec: set(word), ..vars() };
        assert_eq!(read(&vars).unwrap().allow_exec, allowed, "{word}");
    }
}

#[test]
fn it_refuses_to_start_without_a_token() {
    assert_eq!(
        refusal(&unset()),
        "LOCAL_MCP_TOKEN is required; refusing to start without authentication"
    );
    let short = Vars { token: set("0123456789abcde"), ..unset() };
    assert_eq!(refusal(&short), "LOCAL_MCP_TOKEN must be at least 16 characters");
    let accented = Vars { token: set("\u{e9}\u{e9}\u{e9}\u{e9}\u{e9}\u{e9}\u{e9}\u{e9}"), ..unset() };
    assert!(matches!(read(&accented), Err(ConfigError::ShortToken)));
}

#[test]
fn unusable_values_are_named() {
    assert_eq!(
        refusal(&Vars { max_output: set("lots"), ..vars() }),
        "LOCAL_MCP_MAX_OUTPUT must be a byte count"
    );
    assert_eq!(
        refusal(&Vars { command_timeout: set("-1"), ..vars() }),
        "LOCAL_MCP_COMMAND_TIMEOUT must be seconds"
    );
    let bind = Config::from_env(&vars(), Ok(path("/workspace")), false, &outside());
    assert_eq!(
        bind.unwrap_err().message(),
        "LOCAL_MCP_BIND must be an address like 0.0.0.0:8080"
    );
    let root = Config::from_env(&unset(), Err("gone".to_string()), false, &outside());
    assert_eq!(root.unwrap_err().message(), "LOCAL_MCP_ROOT is unusable: /workspace");
}

#[test]
fn it_refuses_to_start_with_its_credentials_inside_the_root() {
    let inside = |p: Place| Config::from_env(&vars(), Ok(path("/var/lib")), true, &p);
    let error = inside(outside()).unwrap_err();
    assert_eq!(
        error.message(),
        "LOCAL_MCP_STATE_DB must sit outside LOCAL_MCP_ROOT: /var/lib/local-mcp/oauth.db"
    );
    // A link from elsewhere into the root counts, and so does the other way.
    assert!(inside(Place { lexical: Some(path("/a")), real_path: Some(path("/var/lib/a")) }).is_err());
    assert!(inside(Place { lexical: Some(path("/var/lib/a")), real_path: None }).is_err());
    assert!(inside(Place { lexical: Some(path("/a")), real_path: Some(path("/b")) }).is_ok());
}

#[test]
fn it_refuses_to_start_where_its_credentials_cannot_be_located() {
    let unknown = |p: Place| Config::from_env(&vars(), Ok(path("/workspace")), true, &p);
    let error = unknown(Place { lexical: Some(path("/a")), real_path: None }).unwrap_err();
    assert_eq!(
        error.message(),
        "LOCAL_MCP_STATE_DB must sit outside LOCAL_MCP_ROOT: /var/lib/local-mcp/oauth.db"
    );
    assert!(unknown(Place { lexical: None, real_path: None }).is_err());

    let present = |p: &AbsPath| p.to_bytes() == b"/" || p.to_bytes() == b"/dangling";
    let canonical = |p: &AbsPath| {
        if p.to_bytes() == b"/dangling" {
            Err("no such file".to_string())
        } else {
            Ok(p.copy())
        }
    };
    let place = locate("/../workspace/x.db", present, canonical);
    assert!(place.lexical.is_none() && place.real_path.is_none());
    assert!(unknown(place).is_err());
    let place = locate("/dangling/x.db", present, canonical);
    assert!(place.real_path.is_none());
    assert!(unknown(place).is_err());
}

#[test]
fn a_file_is_located_by_its_text_and_by_the_disk() {
    // A disk on which /link leads to /var/lib, and /var/lib/local-mcp is not there.
    let present = |p: &AbsPath| {
        let at = p.to_bytes();
        at == b"/" || at == b"/link"
    };
    let canonical = |p: &AbsPath| {
        if p.to_bytes() == b"/link" {
            Ok(path("/var/lib"))
        } else {
            Ok(p.copy())
        }
    };
    let place = locate("/link/local-mcp/x.db", present, canonical);
    assert_eq!(place.lexical.unwrap().to_bytes(), b"/link/local-mcp/x.db");
    assert_eq!(place.real_path.unwrap().to_bytes(), b"/var/lib/local-mcp/x.db");
    let place = locate("relative.db", present, canonical);
    assert!(place.lexical.is_none() && place.real_path.is_none());
}

#[test]
fn the_log_filter_prefers_its_own_variable() {
    assert_eq!(log_filter(set("debug"), set("warn")), "debug");
    assert_eq!(log_filter(None, set("warn")), "warn");
    assert_eq!(log_filter(None, None), "local_mcp=info,tower_http=info");
}
