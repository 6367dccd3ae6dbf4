//! Who may reach the tools.
use vstd::prelude::*;

use crate::clock::{epoch, Timestamp};
use crate::config::Config;
use crate::ids::{hex_digit, simple};
use crate::oauth::{exchanged, Exchange, OAuth, TOKEN_TTL};
use crate::secret::same_secret;
use crate::store::{Store, Tables};
use crate::text::{
    chars_of, is_white, join2, same_text, text_of, trim, trim_start, trimmed, views,
};

verus! {

/// What the guard goes by.
#[derive(Debug)]
pub struct AuthState {
    pub config: Config,
    /// Present only where a public origin is configured, since the descriptions
    /// of the consent flow name absolute addresses.
    pub oauth: Option<OAuth>,
}

/// A header of a request.
#[derive(Debug)]
pub enum Header {
    /// The request does not carry it.
    Absent,
    /// Its value is not visible ASCII.
    Opaque,
    /// Its value.
    Text(String),
}

/// What a [`Header`] holds.
pub enum Carried {
    Absent,
    Opaque,
    Text(Seq<char>),
}

impl View for Header {
    type V = Carried;

    open spec fn view(&self) -> Carried {
        match self {
            Header::Absent => Carried::Absent,
            Header::Opaque => Carried::Opaque,
            Header::Text(t) => Carried::Text(t@),
        }
    }
}

/// Whether a presented token is the expected one.
pub fn token_matches(expected: &str, presented: &str) -> (same: bool)
    ensures
        same == (expected@ == presented@),
{
    same_secret(expected, presented)
}

/// Whether a request may come from where its `Origin` says. Only a request that
/// names an origin is held to the list, and only where there is a list.
pub open spec fn origin_allowed(allowed: Seq<Seq<char>>, origin: Carried) -> bool {
    allowed.len() == 0 || match origin {
        Carried::Absent => true,
        Carried::Opaque => false,
        Carried::Text(o) => allowed.contains(o),
    }
}

/// Whether a request may come from where its `Origin` says.
pub fn check_origin(allowed: &Vec<String>, origin: &Header) -> (ok: bool)
    ensures
        ok == origin_allowed(views(allowed@), origin@),
{
    let ghost all = views(allowed@);
    if allowed.len() == 0 {
        return true;
    }
    match origin {
        Header::Absent => true,
        Header::Opaque => false,
        Header::Text(o) => {
            let mut i: usize = 0;
            while i < allowed.len()
                invariant
                    0 <= i <= allowed@.len(),
                    all == views(allowed@),
                    all.len() > 0,
                    origin@ == Carried::Text(o@),
                    forall|k: int| 0 <= k < i ==> all[k] != o@,
                decreases allowed@.len() - i,
            {
                assert(all[i as int] == allowed@[i as int]@);
                if same_text(allowed[i].as_str(), o.as_str()) {
                    return true;
                }
                i = i + 1;
            }
            false
        },
    }
}

/// What the `Authorization` header of a bearer starts with.
pub open spec fn bearer() -> Seq<char> {
    "Bearer "@
}

/// The token that a request presents: what follows `Bearer `, without the white
/// space around it.
pub open spec fn presented(authorization: Carried) -> Option<Seq<char>> {
    match authorization {
        Carried::Text(a) => if bearer().is_prefix_of(a) {
            Some(trimmed(a.skip(bearer().len() as int)))
        } else {
            None
        },
        _ => None,
    }
}

/// Reads the token that a request presents.
pub fn presented_token(authorization: &Header) -> (token: Option<String>)
    ensures
        presented(authorization@) == (match token {
            Some(t) => Some(t@),
            None => None,
        }),
{
    match authorization {
        Header::Text(a) => {
            let chars = chars_of(a.as_str());
            let prefix = chars_of("Bearer ");
            if chars.len() < prefix.len() {
                return None;
            }
            let start = text_of(&chars, 0, prefix.len());
            if !same_text(start.as_str(), "Bearer ") {
                return None;
            }
            let rest = text_of(&chars, prefix.len(), chars.len());
            assert(rest@ =~= a@.skip(bearer().len() as int));
            Some(trim(rest.as_str()))
        },
        _ => None,
    }
}

/// How far a request gets by its headers alone.
#[derive(Debug)]
pub enum Gate {
    /// Its origin is not allowed.
    Forbidden,
    /// It presents no token.
    NoToken,
    /// It presents a token that cannot be right.
    WrongToken,
    /// The token may have been issued by the consent flow: the rows decide.
    Check(String),
    /// It presents the configured token.
    Pass,
}

/// What a [`Gate`] holds.
pub enum Gated {
    Forbidden,
    NoToken,
    WrongToken,
    Check(Seq<char>),
    Pass,
}

impl View for Gate {
    type V = Gated;

    open spec fn view(&self) -> Gated {
        match self {
            Gate::Forbidden => Gated::Forbidden,
            Gate::NoToken => Gated::NoToken,
            Gate::WrongToken => Gated::WrongToken,
            Gate::Check(t) => Gated::Check(t@),
            Gate::Pass => Gated::Pass,
        }
    }
}

/// How far a request gets by its headers alone.
pub open spec fn screened(
    allowed: Seq<Seq<char>>,
    secret: Seq<char>,
    oauth: bool,
    origin: Carried,
    authorization: Carried,
) -> Gated {
    if !origin_allowed(allowed, origin) {
        Gated::Forbidden
    } else {
        match presented(authorization) {
            None => Gated::NoToken,
            Some(t) => if t == secret {
                Gated::Pass
            } else if oauth {
                Gated::Check(t)
            } else {
                Gated::WrongToken
            },
        }
    }
}

impl AuthState {
    /// Looks at the headers of a request. The configured token is accepted as it
    /// is, so that a client that can hold a secret need not go through the
    /// consent flow.
    pub fn screen(&self, origin: &Header, authorization: &Header) -> (gate: Gate)
        ensures
            gate@ == screened(
                views(self.config.allowed_origins@),
                self.config.token@,
                self.oauth is Some,
                origin@,
                authorization@,
            ),
    {
        if !check_origin(&self.config.allowed_origins, origin) {
            return Gate::Forbidden;
        }
        match presented_token(authorization) {
            None => Gate::NoToken,
            Some(token) => {
                if token_matches(self.config.token.as_str(), token.as_str()) {
                    Gate::Pass
                } else if self.oauth.is_some() {
                    Gate::Check(token)
                } else {
                    Gate::WrongToken
                }
            },
        }
    }

    /// The value of the `WWW-Authenticate` header of a refusal, which tells a
    /// client where the consent flow is described (RFC 9728).
    pub open spec fn challenge_value(&self) -> Option<Seq<char>> {
        match self.oauth {
            Some(o) => Some(
                "Bearer resource_metadata=\""@ + (o.issuer@
                    + "/.well-known/oauth-protected-resource"@) + "\""@,
            ),
            None => None,
        }
    }

    /// Writes the value of the `WWW-Authenticate` header of a refusal.
    pub fn challenge(&self) -> (value: Option<String>)
        ensures
            self.challenge_value() == (match value {
                Some(v) => Some(v@),
                None => None,
            }),
            value is Some <==> self.oauth is Some,
            value matches Some(v) ==> (self.oauth matches Some(o) && v@
                == "Bearer resource_metadata=\""@ + (o.issuer@
                + "/.well-known/oauth-protected-resource"@) + "\""@),
    {
        match &self.oauth {
            Some(o) => {
                let url = o.resource_metadata_url();
                let mut v = join2("Bearer resource_metadata=\"", url.as_str());
                v.append("\"");
                Some(v)
            },
            None => None,
        }
    }
}

/// What becomes of a request.
#[derive(Debug)]
pub enum Ruling {
    /// Refused with status 403.
    Forbidden,
    /// Refused with status 401, and with a header where there is one to send.
    Unauthorized { challenge: Option<String> },
    /// Let through.
    Pass,
}

/// What a [`Ruling`] holds.
pub enum Ruled {
    Forbidden,
    Unauthorized { challenge: Option<Seq<char>> },
    Pass,
}

impl View for Ruling {
    type V = Ruled;

    open spec fn view(&self) -> Ruled {
        match self {
            Ruling::Forbidden => Ruled::Forbidden,
            Ruling::Unauthorized { challenge } => Ruled::Unauthorized {
                challenge: match challenge {
                    Some(c) => Some(c@),
                    None => None,
                },
            },
            Ruling::Pass => Ruled::Pass,
        }
    }
}

/// The ruling on a request that got as far as `gate`, where a token that has to
/// be checked turned out to be valid or not.
pub open spec fn ruled(gate: Gated, valid: bool, challenge: Option<Seq<char>>) -> Ruled {
    match gate {
        Gated::Forbidden => Ruled::Forbidden,
        Gated::NoToken => Ruled::Unauthorized { challenge },
        Gated::WrongToken => Ruled::Unauthorized { challenge },
        Gated::Check(_) => if valid {
            Ruled::Pass
        } else {
            Ruled::Unauthorized { challenge }
        },
        Gated::Pass => Ruled::Pass,
    }
}

impl AuthState {
    /// Gives the ruling on a request. `valid` tells what the rows say of a
    /// token that has to be checked; rows that cannot be read deny it.
    pub fn decide(&self, gate: &Gate, valid: bool) -> (ruling: Ruling)
        ensures
            ruling@ == ruled(gate@, valid, self.challenge_value()),
    {
        match gate {
            Gate::Forbidden => Ruling::Forbidden,
            Gate::NoToken => Ruling::Unauthorized { challenge: self.challenge() },
            Gate::WrongToken => Ruling::Unauthorized { challenge: self.challenge() },
            Gate::Check(_) => {
                if valid {
                    Ruling::Pass
                } else {
                    Ruling::Unauthorized { challenge: self.challenge() }
                }
            },
            Gate::Pass => Ruling::Pass,
        }
    }
}

/// The rows and the ruling after a request.
pub open spec fn guarded(
    t: Tables,
    gate: Gated,
    challenge: Option<Seq<char>>,
    now: Timestamp,
) -> (Tables, Ruled) {
    match gate {
        Gated::Check(token) => (
            t.unexpired(epoch(now)),
            ruled(gate, t.token_valid(token, epoch(now)), challenge),
        ),
        _ => (t, ruled(gate, false, challenge)),
    }
}

/// Decides whether a request reaches the tools: it has to come from an allowed
/// origin, and to present the configured token or one that the consent flow
/// issued.
///
/// Checking origins defeats DNS rebinding, which the token already covers: so
/// the check is made only where origins are configured.
pub fn guard(
    state: &AuthState,
    store: &mut Store,
    origin: &Header,
    authorization: &Header,
    now: Timestamp,
) -> (ruling: Ruling)
    requires
        old(store).wf(),
    ensures
        final(store).wf(),
        final(store).loaded() == old(store).loaded(),
        (final(store)@, ruling@) == guarded(
            old(store)@,
            screened(
                views(state.config.allowed_origins@),
                state.config.token@,
                state.oauth is Some,
                origin@,
                authorization@,
            ),
            state.challenge_value(),
            now,
        ),
        ({
            let allowed = views(state.config.allowed_origins@);
            let welcome = allowed.len() == 0 || *origin is Absent || (*origin matches Header::Text(
                o,
            ) && allowed.contains(o@));
            let second: int = if now.secs < 0 {
                0
            } else {
                now.secs as int
            };
            let tokens = old(store)@.tokens;
            let entitled = *authorization matches Header::Text(a) && exists|raw: Seq<char>|
                a@ == #[trigger] ("Bearer "@ + raw) && (trimmed(raw) == state.config.token@ || (
                state.oauth is Some && tokens.contains_key(trimmed(raw)) && second < tokens[trimmed(
                    raw,
                )].0));
            &&& ruling is Pass <==> welcome && entitled
            &&& ruling is Forbidden <==> !welcome
        }),
{
    proof {
        law_who_gets_through(
            store@,
            views(state.config.allowed_origins@),
            state.config.token@,
            state.oauth is Some,
            origin@,
            authorization@,
            state.challenge_value(),
            now,
        );
    }
    let gate = state.screen(origin, authorization);
    let mut valid = false;
    match &gate {
        Gate::Check(token) => {
            match &state.oauth {
                Some(o) => {
                    valid = o.token_is_valid(store, token.as_str(), now);
                },
                None => {},
            }
        },
        _ => {},
    }
    state.decide(&gate, valid)
}

/// Nothing passes without a token: a request is let through only if it presents
/// the configured token, or one that was issued and has not expired.
pub proof fn law_pass_needs_token(
    t: Tables,
    allowed: Seq<Seq<char>>,
    secret: Seq<char>,
    oauth: bool,
    origin: Carried,
    authorization: Carried,
    challenge: Option<Seq<char>>,
    now: Timestamp,
)
    ensures
        guarded(
            t,
            screened(allowed, secret, oauth, origin, authorization),
            challenge,
            now,
        ).1 is Pass <==> origin_allowed(allowed, origin) && (presented(authorization) matches Some(k)
            && (k == secret || oauth && t.token_valid(k, epoch(now)))),
{
}

/// The configured token always gets a request from an allowed origin through,
/// whatever the rows hold, and leaves them as they are.
pub proof fn law_static_token_passes(
    t: Tables,
    allowed: Seq<Seq<char>>,
    secret: Seq<char>,
    oauth: bool,
    origin: Carried,
    challenge: Option<Seq<char>>,
    now: Timestamp,
)
    requires
        origin_allowed(allowed, origin),
        trimmed(secret) == secret,
    ensures
        guarded(
            t,
            screened(allowed, secret, oauth, origin, Carried::Text(bearer() + secret)),
            challenge,
            now,
        ) == (t, Ruled::Pass),
{
    let a = bearer() + secret;
    assert(a.subrange(0, bearer().len() as int) =~= bearer());
    assert(a.skip(bearer().len() as int) =~= secret);
}

/// An id written in hexadecimal has no white space around it.
proof fn lemma_simple_is_trimmed(n: u128)
    ensures
        trimmed(simple(n)) == simple(n),
{
    let s = simple(n);
    assert forall|d: nat| d < 16 implies !is_white(#[trigger] hex_digit(d)) by {}
    assert(!is_white(s[0]));
    assert(trim_start(s) == s);
    assert(!is_white(s.last()));
}

/// A token that the consent flow handed out gets its bearer through the guard
/// until it expires, thirty days later, and no longer.
pub proof fn law_issued_token_passes(
    t: Tables,
    request: Exchange,
    n: u128,
    redeemed: Timestamp,
    allowed: Seq<Seq<char>>,
    secret: Seq<char>,
    origin: Carried,
    challenge: Option<Seq<char>>,
    now: Timestamp,
)
    requires
        exchanged(t, request, simple(n), redeemed).1 is Ok,
        0 <= redeemed.secs,
        redeemed.secs + TOKEN_TTL <= i64::MAX,
        origin_allowed(allowed, origin),
        simple(n) != secret,
    ensures
        guarded(
            exchanged(t, request, simple(n), redeemed).0,
            screened(allowed, secret, true, origin, Carried::Text(bearer() + simple(n))),
            challenge,
            now,
        ).1 is Pass <==> epoch(now) < redeemed.secs + TOKEN_TTL,
{
    let a = bearer() + simple(n);
    assert(a.subrange(0, bearer().len() as int) =~= bearer());
    assert(a.skip(bearer().len() as int) =~= simple(n));
    lemma_simple_is_trimmed(n);
}

/// Who gets through, by the request and the rows alone: where origins are listed,
/// one that names its origin has to name a listed one; and it has to bring the
/// configured token, or one that was issued and has not expired, behind `Bearer `.
/// A request from elsewhere is forbidden, and any other is told where to get a
/// token. No row goes but those that have expired.
pub proof fn law_who_gets_through(
    t: Tables,
    allowed: Seq<Seq<char>>,
    secret: Seq<char>,
    oauth: bool,
    origin: Carried,
    authorization: Carried,
    challenge: Option<Seq<char>>,
    now: Timestamp,
)
    ensures
        ({
            let (after, ruling) = guarded(
                t,
                screened(allowed, secret, oauth, origin, authorization),
                challenge,
                now,
            );
            let welcome = allowed.len() == 0 || origin is Absent || (origin matches Carried::Text(o)
                && allowed.contains(o));
            let second: int = if now.secs < 0 {
                0
            } else {
                now.secs as int
            };
            let entitled = authorization matches Carried::Text(a) && exists|raw: Seq<char>|
                a == #[trigger] ("Bearer "@ + raw) && (trimmed(raw) == secret || (oauth
                    && t.tokens.contains_key(trimmed(raw)) && second < t.tokens[trimmed(raw)].0));
            &&& ruling is Pass <==> welcome && entitled
            &&& ruling is Forbidden <==> !welcome
            &&& ruling matches Ruled::Unauthorized { challenge: c } ==> c == challenge
            &&& after.clients == t.clients && after.sessions == t.sessions
            &&& forall|k: Seq<char>| #[trigger]
                after.tokens.contains_key(k) ==> t.tokens.contains_key(k) && after.tokens[k]
                    == t.tokens[k]
            &&& forall|k: Seq<char>|
                t.tokens.contains_key(k) && second < t.tokens[k].0 ==> #[trigger]
                    after.tokens.contains_key(k)
            &&& forall|k: Seq<char>| #[trigger]
                after.codes.contains_key(k) ==> t.codes.contains_key(k) && after.codes[k]
                    == t.codes[k]
            &&& forall|k: Seq<char>|
                t.codes.contains_key(k) && second < t.codes[k].0 ==> #[trigger]
                    after.codes.contains_key(k)
        }),
{
    if let Carried::Text(a) = authorization {
        let b = "Bearer "@;
        if b.is_prefix_of(a) {
            assert(a =~= b + a.skip(b.len() as int)) by {
                assert(a.subrange(0, b.len() as int) == b);
            }
        }
        assert forall|raw: Seq<char>| a == #[trigger] (b + raw) implies b.is_prefix_of(a) && a.skip(
            b.len() as int,
        ) == raw by {
            assert(a.subrange(0, b.len() as int) =~= b);
            assert(a.skip(b.len() as int) =~= raw);
        }
    }
}

} // verus!
