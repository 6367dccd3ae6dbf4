//! What outlives the process: the rows of the consent flow, and the handshake
//! behind a session id.
//!
//! A [`Store`] holds the rows of four tables and says what each operation does
//! to them. It keeps a list of the changes that it made, so that whoever loaded
//! the rows from disk can write exactly those changes back.
use vstd::prelude::*;

use crate::clock::{cutoff, cutoff_before, epoch, from_epoch, moment, to_epoch, Span, Timestamp};
use crate::table::{by_key, newer, unique_keys, Row, Table};
use crate::text::{same_text, views};

verus! {

/// What a client was promised when its authorization code was issued.
#[derive(Debug)]
pub struct PendingCode {
    pub client_id: String,
    pub redirect_uri: String,
    pub code_challenge: String,
    pub expires_at: Timestamp,
}

/// The contents of a [`PendingCode`].
pub struct Pending {
    pub client_id: Seq<char>,
    pub redirect_uri: Seq<char>,
    pub code_challenge: Seq<char>,
    pub expires_at: Timestamp,
}

impl View for PendingCode {
    type V = Pending;

    open spec fn view(&self) -> Pending {
        Pending {
            client_id: self.client_id@,
            redirect_uri: self.redirect_uri@,
            code_challenge: self.code_challenge@,
            expires_at: self.expires_at,
        }
    }
}

/// What the row of an authorization code holds beside its expiry.
#[derive(Debug)]
pub struct Grant {
    pub client_id: String,
    pub redirect_uri: String,
    pub code_challenge: String,
}

/// The contents of a [`Grant`].
pub struct Granted {
    pub client_id: Seq<char>,
    pub redirect_uri: Seq<char>,
    pub code_challenge: Seq<char>,
}

impl View for Grant {
    type V = Granted;

    open spec fn view(&self) -> Granted {
        Granted {
            client_id: self.client_id@,
            redirect_uri: self.redirect_uri@,
            code_challenge: self.code_challenge@,
        }
    }
}

/// One redirect address that a client registered.
#[derive(Debug)]
pub struct ClientRow {
    pub client_id: String,
    pub redirect_uri: String,
}

/// The pairs of client and redirect address that a list of rows holds.
pub open spec fn pairs(rows: Seq<ClientRow>) -> Set<(Seq<char>, Seq<char>)> {
    Set::new(
        |p: (Seq<char>, Seq<char>)|
            exists|i: int|
                0 <= i < rows.len() && (#[trigger] rows[i]).client_id@ == p.0
                    && rows[i].redirect_uri@ == p.1,
    )
}

/// Whether no pair occurs twice.
pub open spec fn unique_pairs(rows: Seq<ClientRow>) -> bool {
    forall|i: int, j: int|
        0 <= i < j < rows.len() ==> (rows[i].client_id@, rows[i].redirect_uri@) != (
            rows[j].client_id@,
            rows[j].redirect_uri@,
        )
}

/// The contents of the four tables.
#[verifier::ext_equal]
pub struct Tables {
    /// Clients, each with a redirect address that it registered.
    pub clients: Set<(Seq<char>, Seq<char>)>,
    /// Authorization codes: when each expires, and what it was issued for.
    pub codes: Map<Seq<char>, (i64, Granted)>,
    /// Access tokens: when each expires.
    pub tokens: Map<Seq<char>, (i64, ())>,
    /// Sessions: when each was last used, and the handshake that opened it.
    pub sessions: Map<Seq<char>, (i64, Seq<char>)>,
}

impl Tables {
    /// With redirect addresses registered for a client.
    pub open spec fn registered(self, client: Seq<char>, uris: Seq<Seq<char>>) -> Tables {
        Tables {
            clients: Set::new(
                |p: (Seq<char>, Seq<char>)|
                    self.clients.contains(p) || (p.0 == client && uris.contains(p.1)),
            ),
            ..self
        }
    }

    /// The redirect addresses of a client.
    pub open spec fn uris(self, client: Seq<char>) -> Set<Seq<char>> {
        Set::new(|u: Seq<char>| self.clients.contains((client, u)))
    }

    /// Whether a client has registered at all.
    pub open spec fn knows(self, client: Seq<char>) -> bool {
        exists|u: Seq<char>| self.clients.contains((client, u))
    }

    /// With an authorization code written down.
    pub open spec fn with_code(self, code: Seq<char>, stamp: i64, grant: Granted) -> Tables {
        Tables { codes: self.codes.insert(code, (stamp, grant)), ..self }
    }

    /// Without an authorization code.
    pub open spec fn without_code(self, code: Seq<char>) -> Tables {
        Tables { codes: self.codes.remove(code), ..self }
    }

    /// What an authorization code was issued for.
    pub open spec fn pending(self, code: Seq<char>) -> Option<Pending> {
        if self.codes.contains_key(code) {
            let (stamp, grant) = self.codes[code];
            Some(
                Pending {
                    client_id: grant.client_id,
                    redirect_uri: grant.redirect_uri,
                    code_challenge: grant.code_challenge,
                    expires_at: moment(stamp),
                },
            )
        } else {
            None
        }
    }

    /// With an access token written down.
    pub open spec fn with_token(self, token: Seq<char>, stamp: i64) -> Tables {
        Tables { tokens: self.tokens.insert(token, (stamp, ())), ..self }
    }

    /// Without the tokens and codes that have expired by the second `now`.
    pub open spec fn unexpired(self, now: i64) -> Tables {
        Tables { codes: newer(self.codes, now), tokens: newer(self.tokens, now), ..self }
    }

    /// Whether an access token is valid at the second `now`.
    pub open spec fn token_valid(self, token: Seq<char>, now: i64) -> bool {
        self.tokens.contains_key(token) && self.tokens[token].0 > now
    }

    /// With a session written down, in place of an earlier one.
    pub open spec fn with_session(self, id: Seq<char>, now: i64, handshake: Seq<char>) -> Tables {
        Tables { sessions: self.sessions.insert(id, (now, handshake)), ..self }
    }

    /// The handshake of a session.
    pub open spec fn handshake(self, id: Seq<char>) -> Option<Seq<char>> {
        if self.sessions.contains_key(id) {
            Some(self.sessions[id].1)
        } else {
            None
        }
    }

    /// With a session, where there is one, marked as used.
    pub open spec fn touched(self, id: Seq<char>, now: i64) -> Tables {
        if self.sessions.contains_key(id) {
            Tables { sessions: self.sessions.insert(id, (now, self.sessions[id].1)), ..self }
        } else {
            self
        }
    }

    /// Without a session.
    pub open spec fn without_session(self, id: Seq<char>) -> Tables {
        Tables { sessions: self.sessions.remove(id), ..self }
    }

    /// Without the sessions last used at or before the second `cutoff`.
    pub open spec fn swept(self, cutoff: i64) -> Tables {
        Tables { sessions: newer(self.sessions, cutoff), ..self }
    }
}

/// One change to a row or to a range of rows.
#[derive(Debug)]
pub enum Change {
    AddClient { client_id: String, redirect_uri: String },
    AddCode { code: String, grant: Grant, expires_at: i64 },
    RemoveCode { code: String },
    SweepCodes { cutoff: i64 },
    AddToken { token: String, expires_at: i64 },
    SweepTokens { cutoff: i64 },
    PutSession { session_id: String, initialize_params: String, last_seen: i64 },
    TouchSession { session_id: String, last_seen: i64 },
    RemoveSession { session_id: String },
    SweepSessions { cutoff: i64 },
}

impl Change {
    /// The tables once the change is made.
    pub open spec fn applied(self, t: Tables) -> Tables {
        match self {
            Change::AddClient { client_id, redirect_uri } => t.registered(
                client_id@,
                seq![redirect_uri@],
            ),
            Change::AddCode { code, grant, expires_at } => t.with_code(code@, expires_at, grant@),
            Change::RemoveCode { code } => t.without_code(code@),
            Change::SweepCodes { cutoff } => Tables { codes: newer(t.codes, cutoff), ..t },
            Change::AddToken { token, expires_at } => t.with_token(token@, expires_at),
            Change::SweepTokens { cutoff } => Tables { tokens: newer(t.tokens, cutoff), ..t },
            Change::PutSession { session_id, initialize_params, last_seen } => t.with_session(
                session_id@,
                last_seen,
                initialize_params@,
            ),
            Change::TouchSession { session_id, last_seen } => t.touched(session_id@, last_seen),
            Change::RemoveSession { session_id } => t.without_session(session_id@),
            Change::SweepSessions { cutoff } => t.swept(cutoff),
        }
    }
}

/// The tables once a list of changes is made, in order.
pub open spec fn replay(t: Tables, changes: Seq<Change>) -> Tables
    decreases changes.len(),
{
    if changes.len() == 0 {
        t
    } else {
        changes.last().applied(replay(t, changes.drop_last()))
    }
}

/// Why a row was not written: its key is taken.
#[derive(Clone, Copy, Debug, PartialEq, Eq, Structural)]
pub struct Taken;

/// The rows of the four tables, and the changes made since they were loaded.
pub struct Store {
    clients: Vec<ClientRow>,
    codes: Table<Grant>,
    tokens: Table<()>,
    sessions: Table<String>,
    changes: Vec<Change>,
    origin: Ghost<Tables>,
}

impl View for Store {
    type V = Tables;

    closed spec fn view(&self) -> Tables {
        Tables {
            clients: pairs(self.clients@),
            codes: self.codes@,
            tokens: self.tokens@,
            sessions: self.sessions@,
        }
    }
}

impl Store {
    /// Whether no table holds a key twice, and the list of changes leads from
    /// [`Store::loaded`] to the present rows.
    pub closed spec fn wf(&self) -> bool {
        &&& unique_pairs(self.clients@)
        &&& self.codes.wf()
        &&& self.tokens.wf()
        &&& self.sessions.wf()
        &&& replay(self.origin@, self.changes@) == self@
    }

    /// The rows as they were before the changes that have not been taken yet.
    pub closed spec fn loaded(&self) -> Tables {
        self.origin@
    }

    /// A store of the given rows, unless a key occurs twice in one of the
    /// tables.
    pub fn open(
        clients: Vec<ClientRow>,
        codes: Vec<Row<Grant>>,
        tokens: Vec<Row<()>>,
        sessions: Vec<Row<String>>,
    ) -> (s: Option<Store>)
        ensures
            s is Some <==> unique_pairs(clients@) && unique_keys(codes@) && unique_keys(tokens@)
                && unique_keys(sessions@),
            s matches Some(s) ==> s.wf() && s.loaded() == s@ && s@ == (Tables {
                clients: pairs(clients@),
                codes: by_key(codes@),
                tokens: by_key(tokens@),
                sessions: by_key(sessions@),
            }),
    {
        let mut i: usize = 0;
        while i < clients.len()
            invariant
                0 <= i <= clients@.len(),
                forall|a: int, b: int|
                    0 <= a < b < i ==> (clients@[a].client_id@, clients@[a].redirect_uri@) != (
                        clients@[b].client_id@,
                        clients@[b].redirect_uri@,
                    ),
            decreases clients@.len() - i,
        {
            let mut j: usize = 0;
            while j < i
                invariant
                    0 <= j <= i < clients@.len(),
                    forall|a: int|
                        0 <= a < j ==> (clients@[a].client_id@, clients@[a].redirect_uri@) != (
                            clients@[i as int].client_id@,
                            clients@[i as int].redirect_uri@,
                        ),
                decreases i - j,
            {
                if same_text(clients[j].client_id.as_str(), clients[i].client_id.as_str())
                    && same_text(clients[j].redirect_uri.as_str(), clients[i].redirect_uri.as_str()) {
                    return None;
                }
                j = j + 1;
            }
            i = i + 1;
        }
        let codes = match Table::of_rows(codes) {
            Some(t) => t,
            None => {
                return None;
            },
        };
        let tokens = match Table::of_rows(tokens) {
            Some(t) => t,
            None => {
                return None;
            },
        };
        let sessions = match Table::of_rows(sessions) {
            Some(t) => t,
            None => {
                return None;
            },
        };
        let ghost rows = Tables {
            clients: pairs(clients@),
            codes: codes@,
            tokens: tokens@,
            sessions: sessions@,
        };
        Some(
            Store { clients, codes, tokens, sessions, changes: Vec::new(), origin: Ghost(rows) },
        )
    }

    /// Takes the changes made since the rows were loaded, or since they were
    /// last taken. Made in order on the rows as they were then, they give the
    /// present rows.
    pub fn take_changes(&mut self) -> (changes: Vec<Change>)
        requires
            old(self).wf(),
        ensures
            final(self).wf(),
            final(self)@ == old(self)@,
            final(self).loaded() == final(self)@,
            replay(old(self).loaded(), changes@) == final(self)@,
    {
        let mut changes: Vec<Change> = Vec::new();
        std::mem::swap(&mut changes, &mut self.changes);
        self.origin = Ghost(self@);
        changes
    }

    /// Writes down a change that was made.
    fn record(&mut self, change: Change)
        requires
            unique_pairs(old(self).clients@),
            old(self).codes.wf(),
            old(self).tokens.wf(),
            old(self).sessions.wf(),
            change.applied(replay(old(self).origin@, old(self).changes@)) == old(self)@,
        ensures
            final(self).wf(),
            final(self)@ == old(self)@,
            final(self).loaded() == old(self).loaded(),
    {
        let ghost was = self.changes@;
        self.changes.push(change);
        assert(self.changes@.drop_last() =~= was);
    }

    /// Whether a client registered a redirect address.
    fn has_pair(&self, client_id: &str, redirect_uri: &str) -> (b: bool)
        ensures
            b == self@.clients.contains((client_id@, redirect_uri@)),
    {
        let mut i: usize = 0;
        while i < self.clients.len()
            invariant
                0 <= i <= self.clients@.len(),
                forall|j: int|
                    0 <= j < i ==> !(self.clients@[j].client_id@ == client_id@
                        && self.clients@[j].redirect_uri@ == redirect_uri@),
            decreases self.clients@.len() - i,
        {
            if same_text(self.clients[i].client_id.as_str(), client_id) && same_text(
                self.clients[i].redirect_uri.as_str(),
                redirect_uri,
            ) {
                return true;
            }
            i = i + 1;
        }
        false
    }

    /// Registers one redirect address of a client.
    fn add_pair(&mut self, client_id: &str, redirect_uri: &str)
        requires
            old(self).wf(),
        ensures
            final(self).wf(),
            final(self).loaded() == old(self).loaded(),
            final(self)@ == old(self)@.registered(client_id@, seq![redirect_uri@]),
    {
        let ghost one = seq![redirect_uri@];
        if self.has_pair(client_id, redirect_uri) {
            proof {
                assert forall|u: Seq<char>| one.contains(u) implies u == redirect_uri@ by {}
                assert(self@.registered(client_id@, one) =~= self@);
            }
            return;
        }
        let ghost was = self@;
        let ghost rows = self.clients@;
        let row = ClientRow {
            client_id: client_id.to_owned(),
            redirect_uri: redirect_uri.to_owned(),
        };
        self.clients.push(row);
        proof {
            assert forall|i: int, j: int| 0 <= i < j < self.clients@.len() implies (
                self.clients@[i].client_id@,
                self.clients@[i].redirect_uri@,
            ) != (self.clients@[j].client_id@, self.clients@[j].redirect_uri@) by {
                if j == rows.len() {
                    assert(was.clients.contains((rows[i].client_id@, rows[i].redirect_uri@)));
                }
            }
            assert forall|p: (Seq<char>, Seq<char>)| #[trigger]
                pairs(self.clients@).contains(p) <==> was.registered(
                    client_id@,
                    one,
                ).clients.contains(p) by {
                if was.clients.contains(p) {
                    let i = choose|i: int|
                        0 <= i < rows.len() && (#[trigger] rows[i]).client_id@ == p.0
                            && rows[i].redirect_uri@ == p.1;
                    assert(self.clients@[i] == rows[i]);
                }
                if p == (client_id@, redirect_uri@) {
                    assert(self.clients@[rows.len() as int] == row);
                    assert(one[0] == redirect_uri@);
                }
                if pairs(self.clients@).contains(p) {
                    let i = choose|i: int|
                        0 <= i < self.clients@.len() && (#[trigger] self.clients@[i]).client_id@
                            == p.0 && self.clients@[i].redirect_uri@ == p.1;
                    if i < rows.len() {
                        assert(rows[i] == self.clients@[i]);
                    } else {
                        assert(one[0] == p.1);
                    }
                }
            }
            assert(self@ =~= was.registered(client_id@, one));
        }
        self.record(
            Change::AddClient {
                client_id: client_id.to_owned(),
                redirect_uri: redirect_uri.to_owned(),
            },
        );
    }

    /// Registers the redirect addresses of a client. Those that it registered
    /// before are kept, and none is written twice.
    pub fn register_client(&mut self, client_id: &str, redirect_uris: &Vec<String>)
        requires
            old(self).wf(),
        ensures
            final(self).wf(),
            final(self).loaded() == old(self).loaded(),
            final(self)@ == old(self)@.registered(client_id@, views(redirect_uris@)),
    {
        let ghost was = self@;
        let ghost all = views(redirect_uris@);
        let mut i: usize = 0;
        assert(was.registered(client_id@, all.take(0)) =~= was);
        while i < redirect_uris.len()
            invariant
                0 <= i <= redirect_uris@.len(),
                all == views(redirect_uris@),
                self.wf(),
                self.loaded() == old(self).loaded(),
                self@ == was.registered(client_id@, all.take(i as int)),
            decreases redirect_uris@.len() - i,
        {
            self.add_pair(client_id, redirect_uris[i].as_str());
            proof {
                let before = all.take(i as int);
                let after = all.take(i as int + 1);
                let one = seq![all[i as int]];
                assert(redirect_uris@[i as int]@ == all[i as int]);
                assert(after =~= before + one);
                assert forall|u: Seq<char>| #[trigger]
                    after.contains(u) <==> (before.contains(u) || one.contains(u)) by {
                    if before.contains(u) {
                        let k = choose|k: int| 0 <= k < before.len() && before[k] == u;
                        assert(after[k] == u);
                    }
                    if one.contains(u) {
                        assert(after[i as int] == u);
                    }
                    if after.contains(u) {
                        let k = choose|k: int| 0 <= k < after.len() && after[k] == u;
                        if k < i {
                            assert(before[k] == u);
                        } else {
                            assert(one[0] == u);
                        }
                    }
                }
                assert(was.registered(client_id@, before).registered(client_id@, one)
                    =~= was.registered(client_id@, after));
            }
            i = i + 1;
        }
        assert(all.take(all.len() as int) =~= all);
    }

    /// The redirect addresses of a client, each once and in no particular
    /// order; `None` where the client never registered, which is not the same
    /// as a client whose addresses do not match.
    pub fn redirect_uris(&self, client_id: &str) -> (uris: Option<Vec<String>>)
        requires
            self.wf(),
        ensures
            uris is Some <==> self@.knows(client_id@),
            uris matches Some(v) ==> v@.len() > 0 && views(v@).no_duplicates() && views(
                v@,
            ).to_set() == self@.uris(client_id@),
    {
        let mut out: Vec<String> = Vec::new();
        let mut i: usize = 0;
        while i < self.clients.len()
            invariant
                0 <= i <= self.clients@.len(),
                unique_pairs(self.clients@),
                views(out@).no_duplicates(),
                forall|u: Seq<char>| #[trigger]
                    views(out@).contains(u) <==> pairs(self.clients@.take(i as int)).contains(
                        (client_id@, u),
                    ),
            decreases self.clients@.len() - i,
        {
            let ghost before = self.clients@.take(i as int);
            let ghost after = self.clients@.take(i as int + 1);
            let ghost got = views(out@);
            let ghost row = self.clients@[i as int];
            proof {
                assert forall|p: (Seq<char>, Seq<char>)| #[trigger]
                    pairs(after).contains(p) <==> (pairs(before).contains(p) || p == (
                        row.client_id@,
                        row.redirect_uri@,
                    )) by {
                    if pairs(before).contains(p) {
                        let k = choose|k: int|
                            0 <= k < before.len() && (#[trigger] before[k]).client_id@ == p.0
                                && before[k].redirect_uri@ == p.1;
                        assert(after[k] == before[k]);
                    }
                    if p == (row.client_id@, row.redirect_uri@) {
                        assert(after[i as int] == row);
                    }
                    if pairs(after).contains(p) {
                        let k = choose|k: int|
                            0 <= k < after.len() && (#[trigger] after[k]).client_id@ == p.0
                                && after[k].redirect_uri@ == p.1;
                        if k < i {
                            assert(before[k] == after[k]);
                        }
                    }
                }
            }
            if same_text(self.clients[i].client_id.as_str(), client_id) {
                let uri = self.clients[i].redirect_uri.as_str().to_owned();
                out.push(uri);
                proof {
                    assert(views(out@) =~= got.push(row.redirect_uri@));
                    if got.contains(row.redirect_uri@) {
                        let k = choose|k: int|
                            0 <= k < before.len() && (#[trigger] before[k]).client_id@
                                == client_id@ && before[k].redirect_uri@ == row.redirect_uri@;
                        assert(self.clients@[k] == before[k]);
                    }
                    assert forall|u: Seq<char>| #[trigger]
                        views(out@).contains(u) <==> (got.contains(u) || u == row.redirect_uri@) by {
                        if got.contains(u) {
                            let k = choose|k: int| 0 <= k < got.len() && got[k] == u;
                            assert(views(out@)[k] == u);
                        }
                        if u == row.redirect_uri@ {
                            assert(views(out@)[got.len() as int] == u);
                        }
                    }
                }
            }
            i = i + 1;
        }
        assert(self.clients@.take(self.clients@.len() as int) =~= self.clients@);
        assert(views(out@).to_set() =~= self@.uris(client_id@));
        if out.len() == 0 {
            proof {
                if self@.knows(client_id@) {
                    let u = choose|u: Seq<char>| self@.clients.contains((client_id@, u));
                    assert(views(out@).contains(u));
                }
            }
            None
        } else {
            assert(views(out@).contains(views(out@)[0]));
            Some(out)
        }
    }

    /// Writes an authorization code down. Its expiry is kept to the second. A
    /// code that is already there is left as it is.
    pub fn store_code(&mut self, code: &str, pending: &PendingCode) -> (done: Result<(), Taken>)
        requires
            old(self).wf(),
        ensures
            final(self).wf(),
            final(self).loaded() == old(self).loaded(),
            done is Err <==> old(self)@.codes.contains_key(code@),
            final(self)@ == if done is Err {
                old(self)@
            } else {
                old(self)@.with_code(
                    code@,
                    epoch(pending.expires_at),
                    (Granted {
                        client_id: pending.client_id@,
                        redirect_uri: pending.redirect_uri@,
                        code_challenge: pending.code_challenge@,
                    }),
                )
            },
    {
        let expires_at: i64 = to_epoch(pending.expires_at);
        let grant = Grant {
            client_id: pending.client_id.as_str().to_owned(),
            redirect_uri: pending.redirect_uri.as_str().to_owned(),
            code_challenge: pending.code_challenge.as_str().to_owned(),
        };
        if !self.codes.insert(code, expires_at, grant) {
            return Err(Taken);
        }
        let grant = Grant {
            client_id: pending.client_id.as_str().to_owned(),
            redirect_uri: pending.redirect_uri.as_str().to_owned(),
            code_challenge: pending.code_challenge.as_str().to_owned(),
        };
        self.record(Change::AddCode { code: code.to_owned(), grant, expires_at });
        Ok(())
    }

    /// Takes an authorization code: it is gone once it has been read, because a
    /// code can be used only once.
    pub fn take_code(&mut self, code: &str) -> (pending: Option<PendingCode>)
        requires
            old(self).wf(),
        ensures
            final(self).wf(),
            final(self).loaded() == old(self).loaded(),
            final(self)@ == old(self)@.without_code(code@),
            match pending {
                Some(p) => old(self)@.pending(code@) == Some(p@),
                None => old(self)@.pending(code@) is None,
            },
    {
        match self.codes.remove(code) {
            Some(row) => {
                self.record(Change::RemoveCode { code: code.to_owned() });
                Some(
                    PendingCode {
                        client_id: row.value.client_id,
                        redirect_uri: row.value.redirect_uri,
                        code_challenge: row.value.code_challenge,
                        expires_at: from_epoch(row.stamp),
                    },
                )
            },
            None => {
                assert(self@ =~= old(self)@);
                None
            },
        }
    }

    /// Writes an access token down. Its expiry is kept to the second. A token
    /// that is already there is left as it is.
    pub fn store_token(&mut self, token: &str, expires_at: Timestamp) -> (done: Result<(), Taken>)
        requires
            old(self).wf(),
        ensures
            final(self).wf(),
            final(self).loaded() == old(self).loaded(),
            done is Err <==> old(self)@.tokens.contains_key(token@),
            final(self)@ == if done is Err {
                old(self)@
            } else {
                old(self)@.with_token(token@, epoch(expires_at))
            },
    {
        let expires_at: i64 = to_epoch(expires_at);
        if !self.tokens.insert(token, expires_at, ()) {
            return Err(Taken);
        }
        self.record(Change::AddToken { token: token.to_owned(), expires_at });
        Ok(())
    }

    /// Whether an access token is valid. Tokens and codes that have expired are
    /// removed on the way past, so that the tables do not grow without bound.
    pub fn token_is_valid(&mut self, token: &str, now: Timestamp) -> (valid: bool)
        requires
            old(self).wf(),
        ensures
            final(self).wf(),
            final(self).loaded() == old(self).loaded(),
            final(self)@ == old(self)@.unexpired(epoch(now)),
            valid == old(self)@.token_valid(token@, epoch(now)),
    {
        let now: i64 = to_epoch(now);
        let _ = self.tokens.sweep(now);
        self.record(Change::SweepTokens { cutoff: now });
        let _ = self.codes.sweep(now);
        self.record(Change::SweepCodes { cutoff: now });
        self.tokens.get(token).is_some()
    }

    /// Keeps the handshake that a session id was opened with. An id that is
    /// written again keeps the newer handshake.
    pub fn save_session(&mut self, session_id: &str, initialize_params: &str, now: Timestamp)
        requires
            old(self).wf(),
        ensures
            final(self).wf(),
            final(self).loaded() == old(self).loaded(),
            final(self)@ == old(self)@.with_session(session_id@, epoch(now), initialize_params@),
    {
        let last_seen: i64 = to_epoch(now);
        self.sessions.put(session_id, last_seen, initialize_params.to_owned());
        self.record(
            Change::PutSession {
                session_id: session_id.to_owned(),
                initialize_params: initialize_params.to_owned(),
                last_seen,
            },
        );
    }

    /// The handshake of a session; `None` where there is no such session. To
    /// read a session is to use it.
    pub fn load_session(&mut self, session_id: &str, now: Timestamp) -> (params: Option<String>)
        requires
            old(self).wf(),
        ensures
            final(self).wf(),
            final(self).loaded() == old(self).loaded(),
            final(self)@ == old(self)@.touched(session_id@, epoch(now)),
            match params {
                Some(p) => old(self)@.handshake(session_id@) == Some(p@),
                None => old(self)@.handshake(session_id@) is None,
            },
    {
        let last_seen: i64 = to_epoch(now);
        let params = match self.sessions.get(session_id) {
            Some(row) => row.value.as_str().to_owned(),
            None => {
                return None;
            },
        };
        self.sessions.put(session_id, last_seen, params.as_str().to_owned());
        self.record(Change::TouchSession { session_id: session_id.to_owned(), last_seen });
        Some(params)
    }

    /// Forgets a session. There need not be one.
    pub fn delete_session(&mut self, session_id: &str)
        requires
            old(self).wf(),
        ensures
            final(self).wf(),
            final(self).loaded() == old(self).loaded(),
            final(self)@ == old(self)@.without_session(session_id@),
    {
        let _ = self.sessions.remove(session_id);
        self.record(Change::RemoveSession { session_id: session_id.to_owned() });
    }

    /// Forgets the sessions that have not been used for `retention`, and says
    /// how many went. A clock too close to 1970 for that keeps all that were
    /// used after its start.
    pub fn sweep_sessions(&mut self, retention: Span, now: Timestamp) -> (dropped: usize)
        requires
            old(self).wf(),
        ensures
            final(self).wf(),
            final(self).loaded() == old(self).loaded(),
            final(self)@ == old(self)@.swept(cutoff(now, retention)),
            old(self)@.sessions.dom().finite(),
            dropped == old(self)@.sessions.dom().len() - final(self)@.sessions.dom().len(),
    {
        let cutoff: i64 = cutoff_before(now, retention);
        let dropped: usize = self.sessions.sweep(cutoff);
        self.record(Change::SweepSessions { cutoff });
        dropped
    }
}

/// Changes that are written down as they come give the same rows as all of them
/// at once: what was kept before a restart is there after it.
pub proof fn law_changes_add_up(t: Tables, first: Seq<Change>, rest: Seq<Change>)
    ensures
        replay(t, first + rest) == replay(replay(t, first), rest),
    decreases rest.len(),
{
    if rest.len() == 0 {
        assert(first + rest =~= first);
    } else {
        law_changes_add_up(t, first, rest.drop_last());
        assert((first + rest).drop_last() =~= first + rest.drop_last());
        assert((first + rest).last() == rest.last());
    }
}

/// An authorization code is single-use: once it has been taken, no operation
/// finds it again, unless the same code is issued anew.
pub proof fn law_code_taken_once(t: Tables, code: Seq<char>, changes: Seq<Change>)
    requires
        forall|i: int|
            0 <= i < changes.len() ==> (#[trigger] changes[i] matches Change::AddCode { code: c, .. }
                ==> c@ != code),
    ensures
        replay(t.without_code(code), changes).pending(code) is None,
    decreases changes.len(),
{
    if changes.len() > 0 {
        let before = changes.drop_last();
        assert forall|i: int| 0 <= i < before.len() implies (#[trigger] before[i] matches Change::AddCode {
            code: c,
            ..
        } ==> c@ != code) by {
            assert(before[i] == changes[i]);
        }
        law_code_taken_once(t, code, before);
        assert(changes.last() == changes[changes.len() - 1]);
    }
}

/// An access token lasts until its expiry and no longer: whatever is done to the
/// tables before that, short of sweeping with a later clock, it is valid at
/// every second before its expiry and at none from then on.
pub proof fn law_token_lasts(
    t: Tables,
    token: Seq<char>,
    expires_at: i64,
    changes: Seq<Change>,
    now: i64,
)
    requires
        forall|i: int|
            0 <= i < changes.len() ==> (#[trigger] changes[i] matches Change::AddToken {
                token: k,
                ..
            } ==> k@ != token),
        forall|i: int|
            0 <= i < changes.len() ==> (#[trigger] changes[i] matches Change::SweepTokens { cutoff }
                ==> cutoff < expires_at),
    ensures
        replay(t.with_token(token, expires_at), changes).token_valid(token, now) == (now
            < expires_at),
{
    lemma_token_row(t.with_token(token, expires_at), token, expires_at, changes);
}

/// The row of a token stays while no sweep reaches it.
proof fn lemma_token_row(t: Tables, token: Seq<char>, expires_at: i64, changes: Seq<Change>)
    requires
        t.tokens.contains_key(token),
        t.tokens[token].0 == expires_at,
        forall|i: int|
            0 <= i < changes.len() ==> (#[trigger] changes[i] matches Change::AddToken {
                token: k,
                ..
            } ==> k@ != token),
        forall|i: int|
            0 <= i < changes.len() ==> (#[trigger] changes[i] matches Change::SweepTokens { cutoff }
                ==> cutoff < expires_at),
    ensures
        replay(t, changes).tokens.contains_key(token),
        replay(t, changes).tokens[token].0 == expires_at,
    decreases changes.len(),
{
    if changes.len() > 0 {
        let before = changes.drop_last();
        assert forall|i: int| 0 <= i < before.len() implies (#[trigger] before[i] matches Change::AddToken {
            token: k,
            ..
        } ==> k@ != token) by {
            assert(before[i] == changes[i]);
        }
        assert forall|i: int| 0 <= i < before.len() implies (#[trigger] before[i] matches Change::SweepTokens {
            cutoff,
        } ==> cutoff < expires_at) by {
            assert(before[i] == changes[i]);
        }
        lemma_token_row(t, token, expires_at, before);
        assert(changes.last() == changes[changes.len() - 1]);
    }
}

/// An expired token is refused, and the check removes its row rather than
/// passing over it. So it does with an expired code.
pub proof fn law_expired_rows_swept(t: Tables, now: i64)
    ensures
        forall|k: Seq<char>|
            t.tokens.contains_key(k) && t.tokens[k].0 <= now ==> !t.token_valid(k, now)
                && !t.unexpired(now).tokens.contains_key(k),
        forall|k: Seq<char>|
            t.codes.contains_key(k) && t.codes[k].0 <= now ==> t.unexpired(now).pending(k) is None,
        forall|k: Seq<char>|
            t.token_valid(k, now) ==> #[trigger] t.unexpired(now).token_valid(k, now),
{
}

/// A session keeps its handshake: whatever is done to other sessions and tables,
/// and however often it is used, it is there until it is deleted, saved again,
/// or left unused up to a sweep.
pub proof fn law_session_kept(
    t: Tables,
    id: Seq<char>,
    now: i64,
    handshake: Seq<char>,
    changes: Seq<Change>,
)
    requires
        forall|i: int|
            0 <= i < changes.len() ==> (match #[trigger] changes[i] {
                Change::PutSession { session_id, .. } => session_id@ != id,
                Change::RemoveSession { session_id } => session_id@ != id,
                Change::TouchSession { session_id, last_seen } => session_id@ == id ==> last_seen
                    >= now,
                Change::SweepSessions { cutoff } => cutoff < now,
                _ => true,
            }),
    ensures
        replay(t.with_session(id, now, handshake), changes).handshake(id) == Some(handshake),
        replay(t.with_session(id, now, handshake), changes).sessions[id].0 >= now,
    decreases changes.len(),
{
    if changes.len() > 0 {
        let before = changes.drop_last();
        assert forall|i: int| 0 <= i < before.len() implies (match #[trigger] before[i] {
            Change::PutSession { session_id, .. } => session_id@ != id,
            Change::RemoveSession { session_id } => session_id@ != id,
            Change::TouchSession { session_id, last_seen } => session_id@ == id ==> last_seen
                >= now,
            Change::SweepSessions { cutoff } => cutoff < now,
            _ => true,
        }) by {
            assert(before[i] == changes[i]);
        }
        law_session_kept(t, id, now, handshake, before);
        assert(changes.last() == changes[changes.len() - 1]);
    }
}

/// A session that is saved again has one row, with the newer handshake.
pub proof fn law_newer_handshake_wins(
    t: Tables,
    id: Seq<char>,
    first: i64,
    second: i64,
    a: Seq<char>,
    b: Seq<char>,
)
    ensures
        t.with_session(id, first, a).with_session(id, second, b) == t.with_session(id, second, b),
{
    assert(t.with_session(id, first, a).with_session(id, second, b) =~= t.with_session(id, second, b));
}

/// A deleted session cannot be revived: reading it, or deleting it again, finds
/// nothing until it is saved anew.
pub proof fn law_deleted_session_gone(t: Tables, id: Seq<char>, changes: Seq<Change>)
    requires
        forall|i: int|
            0 <= i < changes.len() ==> (#[trigger] changes[i] matches Change::PutSession {
                session_id,
                ..
            } ==> session_id@ != id),
    ensures
        replay(t.without_session(id), changes).handshake(id) is None,
    decreases changes.len(),
{
    if changes.len() > 0 {
        let before = changes.drop_last();
        assert forall|i: int| 0 <= i < before.len() implies (#[trigger] before[i] matches Change::PutSession {
            session_id,
            ..
        } ==> session_id@ != id) by {
            assert(before[i] == changes[i]);
        }
        law_deleted_session_gone(t, id, before);
        assert(changes.last() == changes[changes.len() - 1]);
    }
}

/// A sweep forgets only what has passed its retention. Reading a session counts
/// as using it, and uses are kept to the second: a session is kept exactly where
/// the second of its last use comes after the second that lies `retention` before
/// the sweep.
pub proof fn law_sweep_respects_retention(
    t: Tables,
    id: Seq<char>,
    used: Timestamp,
    later: Timestamp,
    retention: Span,
)
    requires
        t.sessions.contains_key(id),
    ensures
        t.touched(id, epoch(used)).swept(cutoff(later, retention)).handshake(id) == if cutoff(
            later,
            retention,
        ) < epoch(used) {
            t.handshake(id)
        } else {
            None
        },
{
}

/// Registering the same addresses twice is the same as once, and leaves the
/// other clients alone.
pub proof fn law_registration(
    t: Tables,
    client: Seq<char>,
    uris: Seq<Seq<char>>,
    other: Seq<char>,
)
    ensures
        t.registered(client, uris).registered(client, uris) == t.registered(client, uris),
        forall|u: Seq<char>| uris.contains(u) ==> t.registered(client, uris).uris(client).contains(u),
        other != client ==> t.registered(client, uris).uris(other) == t.uris(other),
        other != client ==> t.registered(client, uris).knows(other) == t.knows(other),
{
    let once = t.registered(client, uris);
    assert(once.registered(client, uris) =~= once);
    if other != client {
        assert(once.uris(other) =~= t.uris(other));
        assert forall|u: Seq<char>| once.clients.contains((other, u)) == t.clients.contains(
            (other, u),
        ) by {}
    }
}

/// What each change does to the rows, and that it does nothing else.
pub proof fn law_change_is_local(change: Change, t: Tables)
    ensures
        ({
            let after = change.applied(t);
            match change {
                Change::AddClient { client_id, redirect_uri } => {
                    &&& forall|p: (Seq<char>, Seq<char>)| #[trigger]
                        after.clients.contains(p) <==> t.clients.contains(p) || p == (
                            client_id@,
                            redirect_uri@,
                        )
                    &&& after.codes == t.codes && after.tokens == t.tokens && after.sessions
                        == t.sessions
                },
                Change::AddCode { code, grant, expires_at } => {
                    &&& after.codes == t.codes.insert(code@, (expires_at, grant@))
                    &&& after.clients == t.clients && after.tokens == t.tokens && after.sessions
                        == t.sessions
                },
                Change::RemoveCode { code } => {
                    &&& after.codes == t.codes.remove(code@)
                    &&& after.clients == t.clients && after.tokens == t.tokens && after.sessions
                        == t.sessions
                },
                Change::SweepCodes { cutoff } => {
                    &&& forall|k: Seq<char>| #[trigger]
                        after.codes.contains_key(k) <==> t.codes.contains_key(k) && t.codes[k].0
                            > cutoff
                    &&& forall|k: Seq<char>| #[trigger]
                        after.codes.contains_key(k) ==> after.codes[k] == t.codes[k]
                    &&& after.clients == t.clients && after.tokens == t.tokens && after.sessions
                        == t.sessions
                },
                Change::AddToken { token, expires_at } => {
                    &&& after.tokens == t.tokens.insert(token@, (expires_at, ()))
                    &&& after.clients == t.clients && after.codes == t.codes && after.sessions
                        == t.sessions
                },
                Change::SweepTokens { cutoff } => {
                    &&& forall|k: Seq<char>| #[trigger]
                        after.tokens.contains_key(k) <==> t.tokens.contains_key(k) && t.tokens[k].0
                            > cutoff
                    &&& forall|k: Seq<char>| #[trigger]
                        after.tokens.contains_key(k) ==> after.tokens[k] == t.tokens[k]
                    &&& after.clients == t.clients && after.codes == t.codes && after.sessions
                        == t.sessions
                },
                Change::PutSession { session_id, initialize_params, last_seen } => {
                    &&& after.sessions == t.sessions.insert(
                        session_id@,
                        (last_seen, initialize_params@),
                    )
                    &&& after.clients == t.clients && after.codes == t.codes && after.tokens
                        == t.tokens
                },
                Change::TouchSession { session_id, last_seen } => {
                    &&& after.sessions == if t.sessions.contains_key(session_id@) {
                        t.sessions.insert(session_id@, (last_seen, t.sessions[session_id@].1))
                    } else {
                        t.sessions
                    }
                    &&& after.clients == t.clients && after.codes == t.codes && after.tokens
                        == t.tokens
                },
                Change::RemoveSession { session_id } => {
                    &&& after.sessions == t.sessions.remove(session_id@)
                    &&& after.clients == t.clients && after.codes == t.codes && after.tokens
                        == t.tokens
                },
                Change::SweepSessions { cutoff } => {
                    &&& forall|k: Seq<char>| #[trigger]
                        after.sessions.contains_key(k) <==> t.sessions.contains_key(k)
                            && t.sessions[k].0 > cutoff
                    &&& forall|k: Seq<char>| #[trigger]
                        after.sessions.contains_key(k) ==> after.sessions[k] == t.sessions[k]
                    &&& after.clients == t.clients && after.codes == t.codes && after.tokens
                        == t.tokens
                },
            }
        }),
{
    let after = change.applied(t);
    match change {
        Change::AddClient { client_id, redirect_uri } => {
            let one = seq![redirect_uri@];
            assert(one[0] == redirect_uri@);
            assert forall|p: (Seq<char>, Seq<char>)| #[trigger]
                after.clients.contains(p) <==> t.clients.contains(p) || p == (
                    client_id@,
                    redirect_uri@,
                ) by {
                assert(one.contains(p.1) <==> p.1 == redirect_uri@);
            }
        },
        _ => {},
    }
}

/// The check of a token removes the tokens and codes that have expired, and
/// nothing else: every other one stays as it is, and so do clients and sessions.
pub proof fn law_only_expired_rows_go(t: Tables, now: i64)
    ensures
        forall|k: Seq<char>| #[trigger]
            t.unexpired(now).tokens.contains_key(k) <==> t.tokens.contains_key(k) && now
                < t.tokens[k].0,
        forall|k: Seq<char>| #[trigger]
            t.unexpired(now).tokens.contains_key(k) ==> t.unexpired(now).tokens[k] == t.tokens[k],
        forall|k: Seq<char>| #[trigger]
            t.unexpired(now).codes.contains_key(k) <==> t.codes.contains_key(k) && now
                < t.codes[k].0,
        forall|k: Seq<char>| #[trigger]
            t.unexpired(now).codes.contains_key(k) ==> t.unexpired(now).codes[k] == t.codes[k],
        t.unexpired(now).clients == t.clients,
        t.unexpired(now).sessions == t.sessions,
        forall|k: Seq<char>| #[trigger]
            t.token_valid(k, now) <==> t.tokens.contains_key(k) && now < t.tokens[k].0,
{
}

/// A sweep of the sessions removes those that were last used by the second it
/// goes by, and nothing else.
pub proof fn law_only_unused_sessions_go(t: Tables, cutoff: i64)
    ensures
        forall|k: Seq<char>| #[trigger]
            t.swept(cutoff).sessions.contains_key(k) <==> t.sessions.contains_key(k) && cutoff
                < t.sessions[k].0,
        forall|k: Seq<char>| #[trigger]
            t.swept(cutoff).sessions.contains_key(k) ==> t.swept(cutoff).sessions[k]
                == t.sessions[k],
        t.swept(cutoff).clients == t.clients,
        t.swept(cutoff).codes == t.codes,
        t.swept(cutoff).tokens == t.tokens,
{
}

/// A registration adds the addresses that it names, for its client alone, and
/// nothing else: a client is known by having one.
pub proof fn law_registered_addresses(t: Tables, client: Seq<char>, uris: Seq<Seq<char>>)
    ensures
        ({
            let after = t.registered(client, uris);
            &&& forall|c: Seq<char>, u: Seq<char>| #[trigger]
                after.clients.contains((c, u)) <==> t.clients.contains((c, u)) || (c == client
                    && uris.contains(u))
            &&& forall|c: Seq<char>, u: Seq<char>| #[trigger]
                t.uris(c).contains(u) <==> t.clients.contains((c, u))
            &&& forall|c: Seq<char>, u: Seq<char>| #[trigger] t.clients.contains((c, u)) ==> t.knows(c)
            &&& forall|c: Seq<char>| #[trigger]
                t.knows(c) ==> exists|u: Seq<char>| t.clients.contains((c, u))
            &&& after.codes == t.codes && after.tokens == t.tokens && after.sessions == t.sessions
        }),
{
}

/// A code is found as it was written down, with its expiry to the second, until
/// it is removed; other codes are left alone by both.
pub proof fn law_code_is_found(
    t: Tables,
    code: Seq<char>,
    stamp: i64,
    grant: Granted,
    other: Seq<char>,
)
    ensures
        t.with_code(code, stamp, grant).pending(code) == Some(
            Pending {
                client_id: grant.client_id,
                redirect_uri: grant.redirect_uri,
                code_challenge: grant.code_challenge,
                expires_at: Timestamp {
                    secs: if stamp < 0 {
                        0
                    } else {
                        stamp
                    },
                    nanos: 0,
                },
            },
        ),
        t.without_code(code).pending(code) is None,
        other != code ==> t.with_code(code, stamp, grant).pending(other) == t.pending(other),
        other != code ==> t.without_code(code).pending(other) == t.pending(other),
        t.with_code(code, stamp, grant).tokens == t.tokens,
        t.without_code(code).tokens == t.tokens,
{
}

/// To read a session is to use it, and changes nothing but when that was; saving
/// and deleting one leave the others alone.
pub proof fn law_session_is_used(
    t: Tables,
    id: Seq<char>,
    now: i64,
    handshake: Seq<char>,
    other: Seq<char>,
)
    ensures
        t.touched(id, now).handshake(id) == t.handshake(id),
        t.sessions.contains_key(id) ==> t.touched(id, now).sessions[id].0 == now,
        !t.sessions.contains_key(id) ==> t.touched(id, now) == t && t.handshake(id) is None,
        t.with_session(id, now, handshake).handshake(id) == Some(handshake),
        t.with_session(id, now, handshake).sessions[id].0 == now,
        t.without_session(id).handshake(id) is None,
        other != id ==> t.touched(id, now).handshake(other) == t.handshake(other)
            && t.with_session(id, now, handshake).handshake(other) == t.handshake(other)
            && t.without_session(id).handshake(other) == t.handshake(other),
{
}

/// No change leaves the rows as they are, and one is made as it says.
pub proof fn law_changes_are_made(t: Tables, change: Change)
    ensures
        replay(t, seq![]) == t,
        replay(t, seq![change]) == change.applied(t),
{
    assert(seq![change].drop_last() =~= seq![]);
    assert(replay(t, seq![change].drop_last()) == t);
}

} // verus!
