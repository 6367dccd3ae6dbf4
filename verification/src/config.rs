//! The settings, as they are read from the environment.
use vstd::prelude::*;
use vstd::utf8::encode_utf8;

use crate::clock::Span;
use crate::path::{components, is_absolute, walk, AbsPath};
use crate::root::{answer, resolved, within, Refused, Root, RootError};
use crate::text::{
    is_white, join2, law_trimmed, list_items, number, parse_number, same_text, split_list, trim,
    trimmed, views,
};

verus! {

/// The environment variables that the settings are read from, each as it is set.
#[derive(Debug)]
pub struct Vars {
    /// `LOCAL_MCP_ROOT`
    pub root: Option<String>,
    /// `LOCAL_MCP_TOKEN`
    pub token: Option<String>,
    /// `LOCAL_MCP_BIND`
    pub bind: Option<String>,
    /// `LOCAL_MCP_ALLOWED_HOSTS`
    pub allowed_hosts: Option<String>,
    /// `LOCAL_MCP_ALLOWED_ORIGINS`
    pub allowed_origins: Option<String>,
    /// `LOCAL_MCP_PUBLIC_URL`
    pub public_url: Option<String>,
    /// `LOCAL_MCP_STATE_DB`
    pub state_db: Option<String>,
    /// `LOCAL_MCP_MAX_OUTPUT`
    pub max_output: Option<String>,
    /// `LOCAL_MCP_COMMAND_TIMEOUT`
    pub command_timeout: Option<String>,
    /// `LOCAL_MCP_ALLOW_EXEC`
    pub allow_exec: Option<String>,
}

/// What a variable holds. One that is blank counts as not set.
pub open spec fn given(value: Option<String>) -> Option<Seq<char>> {
    match value {
        Some(v) if trimmed(v@).len() > 0 => Some(v@),
        _ => None,
    }
}

/// What a variable holds, or a default.
pub open spec fn given_or(value: Option<String>, default: Seq<char>) -> Seq<char> {
    match given(value) {
        Some(v) => v,
        None => default,
    }
}

/// Reads a variable.
fn var(value: &Option<String>) -> (out: Option<String>)
    ensures
        given(*value) == (match out {
            Some(v) => Some(v@),
            None => None,
        }),
{
    match value {
        None => None,
        Some(v) => {
            if trim(v.as_str()).as_str().is_empty() {
                None
            } else {
                Some(v.as_str().to_owned())
            }
        },
    }
}

/// Reads a variable that has a default.
fn var_or(value: &Option<String>, default: &str) -> (out: String)
    ensures
        out@ == given_or(*value, default@),
{
    match var(value) {
        Some(v) => v,
        None => default.to_owned(),
    }
}

/// Reads a comma-separated list; nothing where it is not set.
fn var_list(value: &Option<String>) -> (out: Vec<String>)
    ensures
        views(out@) == (match given(*value) {
            Some(v) => list_items(v),
            None => seq![],
        }),
{
    match var(value) {
        Some(v) => split_list(v.as_str()),
        None => {
            let none: Vec<String> = Vec::new();
            assert(views(none@) =~= seq![]);
            none
        },
    }
}

/// The number that a variable holds, or its default; `None` where it holds
/// something that is no number up to `max`.
pub open spec fn given_number(value: Option<String>, max: nat, default: nat) -> Option<nat> {
    match given(value) {
        None => Some(default),
        Some(v) => match number(v) {
            Some(n) if n <= max => Some(n),
            _ => None,
        },
    }
}

/// Reads a number that has a default.
fn var_number(value: &Option<String>, max: u64, default: u64) -> (out: Option<u64>)
    ensures
        given_number(*value, max as nat, default as nat) == (match out {
            Some(n) => Some(n as nat),
            None => None,
        }),
{
    match var(value) {
        None => Some(default),
        Some(v) => parse_number(v.as_str(), max),
    }
}

/// The directory that the file tools are confined to, before the disk is asked
/// where it is.
pub fn root_dir(vars: &Vars) -> (dir: String)
    ensures
        dir@ == given_or(vars.root, "/workspace"@),
{
    var_or(&vars.root, "/workspace")
}

/// The address to listen on.
pub fn bind_address(vars: &Vars) -> (address: String)
    ensures
        address@ == given_or(vars.bind, "0.0.0.0:8080"@),
{
    var_or(&vars.bind, "0.0.0.0:8080")
}

/// The file that holds the persistent rows.
pub fn state_db(vars: &Vars) -> (path: String)
    ensures
        path@ == given_or(vars.state_db, "/var/lib/local-mcp/oauth.db"@),
{
    var_or(&vars.state_db, "/var/lib/local-mcp/oauth.db")
}

/// The log filter: this server's own variable first, then the usual one.
pub fn log_filter(own: Option<String>, usual: Option<String>) -> (filter: String)
    ensures
        filter@ == (match (own, usual) {
            (Some(f), _) => f@,
            (None, Some(f)) => f@,
            (None, None) => "local_mcp=info,tower_http=info"@,
        }),
{
    match own {
        Some(f) => f,
        None => match usual {
            Some(f) => f,
            None => "local_mcp=info,tower_http=info".to_owned(),
        },
    }
}

/// Where a file is: by the text of its path, and by what the disk says.
#[derive(Debug)]
pub struct Place {
    pub lexical: Option<AbsPath>,
    pub real_path: Option<AbsPath>,
}

/// What a [`Place`] holds.
#[verifier::ext_equal]
pub struct Located {
    pub lexical: Option<Seq<Seq<u8>>>,
    pub real_path: Option<Seq<Seq<u8>>>,
}

/// The names of a path, where there is one.
pub open spec fn path_view(p: Option<AbsPath>) -> Option<Seq<Seq<u8>>> {
    match p {
        Some(p) => Some(p@),
        None => None,
    }
}

impl View for Place {
    type V = Located;

    open spec fn view(&self) -> Located {
        Located { lexical: path_view(self.lexical), real_path: path_view(self.real_path) }
    }
}

impl Located {
    /// Whether the file lies within a directory, one way or the other.
    pub open spec fn inside(self, root: Seq<Seq<u8>>) -> bool {
        ||| self.lexical matches Some(p) && within(root, p)
        ||| self.real_path matches Some(p) && within(root, p)
    }
}

/// Where an absolute path leads by its text alone.
pub open spec fn text_place(path: Seq<char>) -> Option<Seq<Seq<u8>>> {
    if is_absolute(encode_utf8(path)) {
        walk(seq![], components(encode_utf8(path)))
    } else {
        None
    }
}

/// Where an absolute path leads on a disk, as far as it can be told.
pub open spec fn real_place(
    path: Seq<char>,
    present: spec_fn(Seq<Seq<u8>>) -> bool,
    canonical: spec_fn(Seq<Seq<u8>>) -> Result<Seq<Seq<u8>>, Seq<char>>,
) -> Option<Seq<Seq<u8>>> {
    if is_absolute(encode_utf8(path)) {
        match resolved(seq![], path, present, canonical) {
            Ok(p) => Some(p),
            Err(_) => None,
        }
    } else {
        None
    }
}

/// Finds where the file at an absolute path is, whether or not it exists.
pub fn locate<P, C>(path: &str, present: P, canonical: C) -> (place: Place) where
    P: Fn(&AbsPath) -> bool,
    C: Fn(&AbsPath) -> Result<AbsPath, String>,

    requires
        forall|p: &AbsPath| #[trigger] call_requires(present, (p,)),
        forall|p: &AbsPath| #[trigger] call_requires(canonical, (p,)),
    ensures
        place@.lexical == text_place(path@),
        forall|
            here: spec_fn(Seq<Seq<u8>>) -> bool,
            there: spec_fn(Seq<Seq<u8>>) -> Result<Seq<Seq<u8>>, Seq<char>>,
        |
            (forall|p: &AbsPath, b: bool|
                #[trigger] call_ensures(present, (p,), b) ==> b == here(p@)) && (forall|
                p: &AbsPath,
                r: Result<AbsPath, String>,
            |
                #[trigger] call_ensures(canonical, (p,), r) ==> answer(r) == there(p@))
                ==> place@.real_path == #[trigger] real_place(path@, here, there),
{
    match AbsPath::parse(path.as_bytes()) {
        None => Place { lexical: None, real_path: None },
        Some(lexical) => {
            match Root::new("/", Ok(AbsPath::top())) {
                Err(_) => Place { lexical: Some(lexical), real_path: None },
                Ok(top) => {
                    let real_path = match top.resolve(path, present, canonical) {
                        Ok(p) => Some(p),
                        Err(_) => None,
                    };
                    Place { lexical: Some(lexical), real_path }
                },
            }
        },
    }
}

/// The settings.
#[derive(Debug)]
pub struct Config {
    pub root: Root,
    pub token: String,
    pub bind: String,
    pub allowed_hosts: Vec<String>,
    pub allowed_origins: Vec<String>,
    pub public_url: Option<String>,
    pub state_db: String,
    pub max_output: usize,
    pub command_timeout: Span,
    pub allow_exec: bool,
    /// How long a finished job can still be asked about.
    pub job_retention: Span,
    /// How long an idle session is kept in memory; without limit where `None`.
    pub session_keep_alive: Option<Span>,
    /// How long an unused session can still be revived.
    pub session_retention: Span,
}

/// What a [`Config`] holds.
#[verifier::ext_equal]
pub struct Settings {
    pub root: Seq<Seq<u8>>,
    pub token: Seq<char>,
    pub bind: Seq<char>,
    pub allowed_hosts: Seq<Seq<char>>,
    pub allowed_origins: Seq<Seq<char>>,
    pub public_url: Option<Seq<char>>,
    pub state_db: Seq<char>,
    pub max_output: nat,
    pub command_timeout: Span,
    pub allow_exec: bool,
    pub job_retention: Span,
    pub session_keep_alive: Option<Span>,
    pub session_retention: Span,
}

impl View for Config {
    type V = Settings;

    open spec fn view(&self) -> Settings {
        Settings {
            root: self.root@,
            token: self.token@,
            bind: self.bind@,
            allowed_hosts: views(self.allowed_hosts@),
            allowed_origins: views(self.allowed_origins@),
            public_url: match self.public_url {
                Some(u) => Some(u@),
                None => None,
            },
            state_db: self.state_db@,
            max_output: self.max_output as nat,
            command_timeout: self.command_timeout,
            allow_exec: self.allow_exec,
            job_retention: self.job_retention,
            session_keep_alive: self.session_keep_alive,
            session_retention: self.session_retention,
        }
    }
}

/// Why the settings are not usable.
#[derive(Debug)]
pub enum ConfigError {
    Root(RootError),
    NoToken,
    ShortToken,
    Bind,
    MaxOutput,
    CommandTimeout,
    StateDbInsideRoot(String),
}

/// What a [`ConfigError`] holds.
pub enum Unusable {
    Root(Refused),
    NoToken,
    ShortToken,
    Bind,
    MaxOutput,
    CommandTimeout,
    StateDbInsideRoot(Seq<char>),
}

impl View for ConfigError {
    type V = Unusable;

    open spec fn view(&self) -> Unusable {
        match self {
            ConfigError::Root(e) => Unusable::Root(e@),
            ConfigError::NoToken => Unusable::NoToken,
            ConfigError::ShortToken => Unusable::ShortToken,
            ConfigError::Bind => Unusable::Bind,
            ConfigError::MaxOutput => Unusable::MaxOutput,
            ConfigError::CommandTimeout => Unusable::CommandTimeout,
            ConfigError::StateDbInsideRoot(p) => Unusable::StateDbInsideRoot(p@),
        }
    }
}

impl Unusable {
    /// The error as one line.
    pub open spec fn said(self) -> Seq<char> {
        match self {
            Unusable::Root(e) => "LOCAL_MCP_ROOT is unusable: "@ + (match e {
                Refused::Escape(path) => path,
                Refused::Io { path, .. } => path,
            }),
            Unusable::NoToken => "LOCAL_MCP_TOKEN is required; refusing to start without authentication"@,
            Unusable::ShortToken => "LOCAL_MCP_TOKEN must be at least 16 characters"@,
            Unusable::Bind => "LOCAL_MCP_BIND must be an address like 0.0.0.0:8080"@,
            Unusable::MaxOutput => "LOCAL_MCP_MAX_OUTPUT must be a byte count"@,
            Unusable::CommandTimeout => "LOCAL_MCP_COMMAND_TIMEOUT must be seconds"@,
            Unusable::StateDbInsideRoot(path) => "LOCAL_MCP_STATE_DB must sit outside LOCAL_MCP_ROOT: "@
                + path,
        }
    }
}

impl ConfigError {
    /// Says what is wrong.
    pub fn message(&self) -> (s: String)
        ensures
            s@ == self@.said(),
    {
        match self {
            ConfigError::Root(RootError::Escape(path)) => {
                join2("LOCAL_MCP_ROOT is unusable: ", path.as_str())
            },
            ConfigError::Root(RootError::Io { path, .. }) => {
                join2("LOCAL_MCP_ROOT is unusable: ", path.as_str())
            },
            ConfigError::NoToken => {
                "LOCAL_MCP_TOKEN is required; refusing to start without authentication".to_owned()
            },
            ConfigError::ShortToken => {
                "LOCAL_MCP_TOKEN must be at least 16 characters".to_owned()
            },
            ConfigError::Bind => {
                "LOCAL_MCP_BIND must be an address like 0.0.0.0:8080".to_owned()
            },
            ConfigError::MaxOutput => "LOCAL_MCP_MAX_OUTPUT must be a byte count".to_owned(),
            ConfigError::CommandTimeout => {
                "LOCAL_MCP_COMMAND_TIMEOUT must be seconds".to_owned()
            },
            ConfigError::StateDbInsideRoot(path) => {
                join2("LOCAL_MCP_STATE_DB must sit outside LOCAL_MCP_ROOT: ", path.as_str())
            },
        }
    }
}

/// The shortest token that is accepted, in characters.
pub const MIN_TOKEN: usize = 16;

/// Whether shell tools are allowed: they are, unless the variable says no.
pub open spec fn exec_allowed(value: Option<String>) -> bool {
    given(value) != Some("false"@) && given(value) != Some("0"@) && given(value) != Some("no"@)
}

/// The settings that the variables ask for. `root` is where the disk says that
/// the root directory is, `bind_ok` whether the address to listen on is one, and
/// `state` where the file of persistent rows is.
pub open spec fn configured(
    vars: Vars,
    root: Result<Seq<Seq<u8>>, Seq<char>>,
    bind_ok: bool,
    state: Located,
) -> Result<Settings, Unusable> {
    match root {
        Err(source) => Err(
            Unusable::Root(Refused::Io { path: given_or(vars.root, "/workspace"@), source }),
        ),
        Ok(root) => match given(vars.token) {
            None => Err(Unusable::NoToken),
            Some(token) => if token.len() < MIN_TOKEN {
                Err(Unusable::ShortToken)
            } else if !bind_ok {
                Err(Unusable::Bind)
            } else {
                match given_number(vars.max_output, usize::MAX as nat, 1_048_576) {
                    None => Err(Unusable::MaxOutput),
                    Some(max_output) => match given_number(
                        vars.command_timeout,
                        u64::MAX as nat,
                        30,
                    ) {
                        None => Err(Unusable::CommandTimeout),
                        Some(timeout) => if state.real_path is None || state.inside(root) {
                            Err(
                                Unusable::StateDbInsideRoot(
                                    given_or(vars.state_db, "/var/lib/local-mcp/oauth.db"@),
                                ),
                            )
                        } else {
                            Ok(
                                Settings {
                                    root,
                                    token,
                                    bind: given_or(vars.bind, "0.0.0.0:8080"@),
                                    allowed_hosts: match given(vars.allowed_hosts) {
                                        Some(v) => list_items(v),
                                        None => seq![],
                                    },
                                    allowed_origins: match given(vars.allowed_origins) {
                                        Some(v) => list_items(v),
                                        None => seq![],
                                    },
                                    public_url: given(vars.public_url),
                                    state_db: given_or(
                                        vars.state_db,
                                        "/var/lib/local-mcp/oauth.db"@,
                                    ),
                                    max_output,
                                    command_timeout: Span { secs: timeout as u64, nanos: 0 },
                                    allow_exec: exec_allowed(vars.allow_exec),
                                    job_retention: Span { secs: 3600, nanos: 0 },
                                    session_keep_alive: None,
                                    session_retention: Span { secs: 2_592_000, nanos: 0 },
                                },
                            )
                        },
                    },
                }
            },
        },
    }
}

/// Whether a file lies within a directory.
fn lies_inside(place: &Option<AbsPath>, root: &Root) -> (b: bool)
    ensures
        b == (path_view(*place) matches Some(p) && within(root@, p)),
{
    match place {
        Some(p) => p.starts_with(root.path()),
        None => false,
    }
}

/// Whether a text is one of three words.
fn says_no(value: &Option<String>) -> (b: bool)
    ensures
        b == !exec_allowed(*value),
{
    match var(value) {
        None => false,
        Some(v) => same_text(v.as_str(), "false") || same_text(v.as_str(), "0") || same_text(
            v.as_str(),
            "no",
        ),
    }
}

impl Config {
    /// Reads the settings. `root` is where the disk says that [`root_dir`] is,
    /// `bind_ok` whether [`bind_address`] is an address, and `state` where the
    /// file of [`state_db`] is: its rows are live credentials, so it may not lie
    /// where the file tools can read it, and one that cannot be located is refused
    /// as well.
    pub fn from_env(
        vars: &Vars,
        root: Result<AbsPath, String>,
        bind_ok: bool,
        state: &Place,
    ) -> (out: Result<Config, ConfigError>)
        ensures
            (match out {
                Ok(c) => Ok(c@),
                Err(e) => Err(e@),
            }) == configured(*vars, answer(root), bind_ok, state@),
            out matches Ok(c) ==> {
                &&& vars.token matches Some(t) && c.token@ == t@ && c.token@.len() >= 16
                &&& root matches Ok(at) && c.root@ == at@
                &&& state.real_path matches Some(p) && !c.root@.is_prefix_of(p@)
                &&& vars.max_output is None ==> c.max_output == 1_048_576
                &&& vars.command_timeout is None ==> c.command_timeout.secs == 30
                &&& vars.allow_exec is None ==> c.allow_exec
            },
    {
        let dir = root_dir(vars);
        let root = match Root::new(dir.as_str(), root) {
            Ok(r) => r,
            Err(e) => {
                return Err(ConfigError::Root(e));
            },
        };
        let token = match var(&vars.token) {
            Some(t) => t,
            None => {
                return Err(ConfigError::NoToken);
            },
        };
        if token.as_str().unicode_len() < MIN_TOKEN {
            return Err(ConfigError::ShortToken);
        }
        if !bind_ok {
            return Err(ConfigError::Bind);
        }
        let max_output: usize = match var_number(&vars.max_output, usize::MAX as u64, 1_048_576) {
            Some(n) => n as usize,
            None => {
                return Err(ConfigError::MaxOutput);
            },
        };
        let timeout: u64 = match var_number(&vars.command_timeout, u64::MAX, 30) {
            Some(n) => n,
            None => {
                return Err(ConfigError::CommandTimeout);
            },
        };
        let state_db = state_db(vars);
        if state.real_path.is_none() || lies_inside(&state.lexical, &root) || lies_inside(
            &state.real_path,
            &root,
        ) {
            return Err(ConfigError::StateDbInsideRoot(state_db));
        }
        let config = Config {
            root,
            token,
            bind: bind_address(vars),
            allowed_hosts: var_list(&vars.allowed_hosts),
            allowed_origins: var_list(&vars.allowed_origins),
            public_url: var(&vars.public_url),
            state_db,
            max_output,
            command_timeout: Span::from_secs(timeout),
            allow_exec: !says_no(&vars.allow_exec),
            job_retention: Span::from_secs(3600),
            session_keep_alive: None,
            session_retention: Span::from_secs(2_592_000),
        };
        Ok(config)
    }
}

/// The server does not start without a token of some length, nor unless the file
/// of credentials that it issues is known to lie where the file tools cannot read
/// it.
pub proof fn law_refuses_to_start(
    vars: Vars,
    root: Result<Seq<Seq<u8>>, Seq<char>>,
    bind_ok: bool,
    state: Located,
)
    ensures
        given(vars.token) is None ==> configured(vars, root, bind_ok, state) is Err,
        configured(vars, root, bind_ok, state) matches Ok(s) ==> s.token.len() >= 16
            && state.real_path is Some && !state.inside(s.root),
{
}

/// A variable counts as set where it holds anything beside white space, and its
/// value is then taken as it is.
pub proof fn law_variable(value: Option<String>)
    ensures
        match given(value) {
            Some(v) => value matches Some(s) && s@ == v && exists|i: int|
                0 <= i < v.len() && !is_white(#[trigger] v[i]),
            None => value matches Some(s) ==> forall|i: int|
                0 <= i < s@.len() ==> is_white(#[trigger] s@[i]),
        },
{
    if let Some(s) = value {
        law_trimmed(s@);
        let t = trimmed(s@);
        let (i, j) = choose|i: int, j: int|
            0 <= i <= j <= s@.len() && t == #[trigger] s@.subrange(i, j) && (forall|k: int|
                0 <= k < i ==> is_white(#[trigger] s@[k])) && (forall|k: int|
                j <= k < s@.len() ==> is_white(#[trigger] s@[k]));
        if t.len() > 0 {
            assert(s@[i] == t[0]);
        }
    }
}

/// The settings, variable by variable: each value is taken as it is given, and has
/// its default where it is not. The server starts exactly where the root is there,
/// the token is long enough, the address is one, the numbers are numbers, and the
/// file of credentials is known to lie outside the root.
pub proof fn law_settings_are_as_given(
    vars: Vars,
    root: Result<Seq<Seq<u8>>, Seq<char>>,
    bind_ok: bool,
    state: Located,
)
    ensures
        configured(vars, root, bind_ok, state) is Ok <==> (root matches Ok(at) && (given(
            vars.token,
        ) matches Some(token) && token.len() >= 16) && bind_ok && (given(vars.max_output) matches Some(
            m,
        ) ==> number(m) matches Some(n) && n <= usize::MAX) && (given(
            vars.command_timeout,
        ) matches Some(m) ==> number(m) matches Some(n) && n <= u64::MAX) && (
        state.real_path matches Some(q) && !at.is_prefix_of(q)) && (
        state.lexical matches Some(p) ==> !at.is_prefix_of(p))),
        configured(vars, root, bind_ok, state) matches Ok(s) ==> {
            &&& root == Ok::<Seq<Seq<u8>>, Seq<char>>(s.root)
            &&& given(vars.token) == Some(s.token)
            &&& s.bind == (if given(vars.bind) is Some {
                given(vars.bind)->0
            } else {
                "0.0.0.0:8080"@
            })
            &&& s.allowed_hosts == (if given(vars.allowed_hosts) is Some {
                list_items(given(vars.allowed_hosts)->0)
            } else {
                seq![]
            })
            &&& s.allowed_origins == (if given(vars.allowed_origins) is Some {
                list_items(given(vars.allowed_origins)->0)
            } else {
                seq![]
            })
            &&& s.public_url == given(vars.public_url)
            &&& s.state_db == (if given(vars.state_db) is Some {
                given(vars.state_db)->0
            } else {
                "/var/lib/local-mcp/oauth.db"@
            })
            &&& Some(s.max_output) == (if given(vars.max_output) is Some {
                number(given(vars.max_output)->0)
            } else {
                Some(1_048_576)
            })
            &&& Some(s.command_timeout.secs as nat) == (if given(vars.command_timeout) is Some {
                number(given(vars.command_timeout)->0)
            } else {
                Some(30)
            })
            &&& s.command_timeout.nanos == 0
            &&& s.allow_exec <==> !(given(vars.allow_exec) == Some("false"@) || given(
                vars.allow_exec,
            ) == Some("0"@) || given(vars.allow_exec) == Some("no"@))
            &&& s.job_retention == Span { secs: 3_600, nanos: 0 }
            &&& s.session_keep_alive is None
            &&& s.session_retention == Span { secs: 2_592_000, nanos: 0 }
        },
{
}

/// Where a file is: the text of an absolute path is followed from the top, and a
/// relative one is not located.
pub proof fn law_located(
    path: Seq<char>,
    present: spec_fn(Seq<Seq<u8>>) -> bool,
    canonical: spec_fn(Seq<Seq<u8>>) -> Result<Seq<Seq<u8>>, Seq<char>>,
)
    ensures
        ({
            let bytes = encode_utf8(path);
            let from_top = bytes.len() > 0 && bytes[0] == 47;
            &&& text_place(path) == if from_top {
                walk(seq![], components(bytes))
            } else {
                None
            }
            &&& real_place(path, present, canonical) matches Some(p) ==> from_top && resolved(
                seq![],
                path,
                present,
                canonical,
            ) == Ok::<Seq<Seq<u8>>, Refused>(p)
            &&& from_top && resolved(seq![], path, present, canonical) is Ok ==> real_place(
                path,
                present,
                canonical,
            ) is Some
        }),
{
}

/// A variable that has a default is taken as it is given, and has the default
/// where it is not.
pub proof fn law_default(value: Option<String>, default: Seq<char>)
    ensures
        given(value) matches Some(v) ==> given_or(value, default) == v,
        given(value) is None ==> given_or(value, default) == default,
{
}

} // verus!
