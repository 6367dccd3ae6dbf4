use local_mcp::clock::{Span, Timestamp};
use local_mcp::store::{Change, ClientRow, Grant, PendingCode, Store, Taken};
use local_mcp::table::Row;

const NOW: Timestamp = Timestamp { secs: 1_800_000_000, nanos: 250 };

fn after(secs: i64) -> Timestamp {
    Timestamp { secs: NOW.secs + secs, nanos: NOW.nanos }
}

/// Rows as they lie on a disk, and the changes made to them one by one.
#[derive(Default)]
struct Disk {
    clients: Vec<(String, String)>,
    codes: Vec<(String, String, String, String, i64)>,
    tokens: Vec<(String, i64)>,
    sessions: Vec<(String, String, i64)>,
}

impl Disk {
    fn open(&self) -> Store {
        let clients = self
            .clients
            .iter()
            .map(|(c, u)| ClientRow { client_id: c.clone(), redirect_uri: u.clone() })
            .collect();
        let codes = self
            .codes
            .iter()
            .map(|(code, client, uri, challenge, at)| Row {
                key: code.clone(),
                stamp: *at,
                value: Grant {
                    client_id: client.clone(),
                    redirect_uri: uri.clone(),
                    code_challenge: challenge.clone(),
                },
            })
            .collect();
        let tokens = self
            .tokens
            .iter()
            .map(|(token, at)| Row { key: token.clone(), stamp: *at, value: () })
            .collect();
        let sessions = self
            .sessions
            .iter()
            .map(|(id, params, at)| Row { key: id.clone(), stamp: *at, value: params.clone() })
            .collect();
        Store::open(clients, codes, tokens, sessions).expect("open")
    }

    fn write(&mut self, store: &mut Store) {
        for change in store.take_changes() {
            match change {
                Change::AddClient { client_id, redirect_uri } => {
                    self.clients.push((client_id, redirect_uri));
                }
                Change::AddCode { code, grant, expires_at } => self.codes.push((
                    code,
                    grant.client_id,
                    grant.redirect_uri,
                    grant.code_challenge,
                    expires_at,
                )),
                Change::RemoveCode { code } => self.codes.retain(|r| r.0 != code),
                Change::SweepCodes { cutoff } => self.codes.retain(|r| r.4 > cutoff),
                Change::AddToken { token, expires_at } => self.tokens.push((token, expires_at)),
                Change::SweepTokens { cutoff } => self.tokens.retain(|r| r.1 > cutoff),
                Change::PutSession { session_id, initialize_params, last_seen } => {
                    self.sessions.retain(|r| r.0 != session_id);
                    self.sessions.push((session_id, initialize_params, last_seen));
                }
                Change::TouchSession { session_id, last_seen } => {
                    for row in self.sessions.iter_mut() {
                        if row.0 == session_id {
                            row.2 = last_seen;
                        }
                    }
                }
                Change::RemoveSession { session_id } => {
                    self.sessions.retain(|r| r.0 != session_id);
                }
                Change::SweepSessions { cutoff } => self.sessions.retain(|r| r.2 > cutoff),
            }
        }
    }
}

fn store() -> Store {
    Disk::default().open()
}

fn pending() -> PendingCode {
    PendingCode {
        client_id: "client".to_string(),
        redirect_uri: "https://example.com/cb".to_string(),
        code_challenge: "challenge".to_string(),
        expires_at: after(60),
    }
}

#[test]
fn a_session_outlives_the_process_that_opened_it() {
    let mut disk = Disk::default();
    let mut opened = disk.open();
    opened.save_session("session-abc", r#"{"protocolVersion":"2025-06-18"}"#, NOW);
    disk.write(&mut opened);
    drop(opened);

    let mut reopened = disk.open();
    assert_eq!(
        reopened.load_session("session-abc", after(5)).as_deref(),
        Some(r#"{"protocolVersion":"2025-06-18"}"#)
    );
    assert!(
        reopened.load_session("never-issued", after(5)).is_none(),
        "an unknown id must read as absent, not as an error"
    );
    disk.write(&mut reopened);
    assert_eq!(disk.sessions[0].2, NOW.secs + 5);
}

#[test]
fn re_registering_a_session_keeps_one_row_and_the_newer_handshake() {
    let mut store = store();
    store.save_session("session-abc", r#"{"v":1}"#, NOW);
    store.save_session("session-abc", r#"{"v":2}"#, NOW);

    assert_eq!(store.load_session("session-abc", NOW).as_deref(), Some(r#"{"v":2}"#));
    // Nothing was swept, so a second row would still be here to find.
    assert_eq!(store.sweep_sessions(Span { secs: 0, nanos: 0 }, NOW), 1);
}

#[test]
fn a_deleted_session_stops_being_revivable() {
    let mut store = store();
    store.save_session("session-abc", r#"{"v":1}"#, NOW);
    store.delete_session("session-abc");

    assert!(store.load_session("session-abc", NOW).is_none());
    // A client that sent DELETE and then retried must not resurrect it.
    store.delete_session("session-abc");
    assert!(store.load_session("session-abc", NOW).is_none());
}

#[test]
fn the_sweep_only_forgets_sessions_past_their_retention() {
    let mut store = store();
    store.save_session("fresh", r#"{"v":1}"#, NOW);

    assert_eq!(
        store.sweep_sessions(Span::from_secs(3600), NOW),
        0,
        "a session saved just now is not 3600 seconds old"
    );
    assert!(store.load_session("fresh", NOW).is_some());

    assert_eq!(store.sweep_sessions(Span { secs: 0, nanos: 0 }, NOW), 1);
    assert!(store.load_session("fresh", NOW).is_none());
}

#[test]
fn a_read_session_is_kept_by_the_next_sweep() {
    let mut store = store();
    store.save_session("used", "{}", NOW);
    store.save_session("idle", "{}", NOW);
    assert!(store.load_session("used", after(50)).is_some());
    assert_eq!(store.sweep_sessions(Span::from_secs(30), after(60)), 1);
    assert!(store.load_session("idle", after(60)).is_none());
    assert!(store.load_session("used", after(60)).is_some());
}

#[test]
fn a_session_is_swept_by_the_second_of_its_last_use() {
    let retention = Span { secs: 10, nanos: 0 };
    let used = Timestamp { secs: NOW.secs, nanos: 900 };
    // Less than ten seconds later, but ten seconds on by the seconds written down.
    let sweep = Timestamp { secs: NOW.secs + 10, nanos: 100 };
    let mut rows = store();
    rows.save_session("a", "{}", used);
    assert_eq!(rows.sweep_sessions(retention, Timestamp { secs: NOW.secs + 9, nanos: 999 }), 0);
    assert_eq!(rows.sweep_sessions(retention, sweep), 1);
}

#[test]
fn a_clock_close_to_1970_sweeps_nothing_that_was_used_after_it() {
    let mut store = store();
    let early = Timestamp { secs: 10, nanos: 0 };
    store.save_session("a", "{}", early);
    store.save_session("b", "{}", Timestamp { secs: -5, nanos: 0 });
    assert_eq!(store.sweep_sessions(Span::from_secs(u64::MAX), early), 1);
    assert!(store.load_session("a", early).is_some());
}

#[test]
fn a_token_outlives_the_process_that_issued_it() {
    let mut disk = Disk::default();
    let mut issued = disk.open();
    assert_eq!(issued.store_token("token-abc", after(60)), Ok(()));
    disk.write(&mut issued);
    drop(issued);

    let mut reopened = disk.open();
    assert!(reopened.token_is_valid("token-abc", NOW));
}

#[test]
fn an_expired_token_is_refused_and_swept() {
    let mut disk = Disk::default();
    let mut store = disk.open();
    assert_eq!(store.store_token("stale", after(-1)), Ok(()));
    disk.write(&mut store);
    assert_eq!(disk.tokens.len(), 1);

    assert!(!store.token_is_valid("stale", NOW));
    // Swept on the first check, so the row is gone rather than merely filtered
    // out.
    disk.write(&mut store);
    assert_eq!(disk.tokens.len(), 0);
}

#[test]
fn a_token_is_valid_up_to_the_second_of_its_expiry() {
    let mut store = store();
    assert_eq!(store.store_token("t", after(60)), Ok(()));
    assert!(store.token_is_valid("t", after(59)));
    assert!(!store.token_is_valid("t", after(60)));
    // The row went with that check.
    assert!(!store.token_is_valid("t", after(59)));
}

#[test]
fn a_code_can_only_be_taken_once() {
    let mut store = store();
    assert_eq!(store.store_code("code-1", &pending()), Ok(()));

    let taken = store.take_code("code-1").expect("take");
    assert_eq!(taken.client_id, "client");
    assert_eq!(taken.redirect_uri, "https://example.com/cb");
    assert_eq!(taken.code_challenge, "challenge");
    // The expiry is kept to the second.
    assert_eq!(taken.expires_at, Timestamp { secs: NOW.secs + 60, nanos: 0 });
    assert!(store.take_code("code-1").is_none());
}

#[test]
fn expired_codes_go_with_the_token_check() {
    let mut store = store();
    assert_eq!(store.store_code("code-1", &pending()), Ok(()));
    assert!(!store.token_is_valid("whatever", after(61)));
    assert!(store.take_code("code-1").is_none());
}

#[test]
fn a_taken_key_is_refused() {
    let mut store = store();
    assert_eq!(store.store_token("t", after(60)), Ok(()));
    assert_eq!(store.store_token("t", after(600)), Err(Taken));
    assert!(!store.token_is_valid("t", after(100)), "the first row was kept");
    assert_eq!(store.store_code("c", &pending()), Ok(()));
    assert_eq!(store.store_code("c", &pending()), Err(Taken));
}

#[test]
fn an_unregistered_client_is_distinct_from_a_mismatched_redirect() {
    let mut store = store();
    store.register_client("client", &vec!["https://example.com/cb".to_string()]);

    assert_eq!(
        store.redirect_uris("client"),
        Some(vec!["https://example.com/cb".to_string()])
    );
    assert_eq!(store.redirect_uris("nobody"), None);
}

#[test]
fn registering_the_same_client_twice_keeps_one_row_per_uri() {
    let mut store = store();
    let uris = vec!["https://example.com/cb".to_string()];
    store.register_client("client", &uris);
    store.register_client("client", &uris);

    assert_eq!(
        store.redirect_uris("client"),
        Some(vec!["https://example.com/cb".to_string()])
    );
}

#[test]
fn registering_leaves_other_clients_alone() {
    let mut store = store();
    store.register_client("a", &vec!["x".to_string(), "y".to_string(), "x".to_string()]);
    store.register_client("b", &vec!["z".to_string()]);
    let mut a = store.redirect_uris("a").unwrap();
    a.sort();
    assert_eq!(a, vec!["x".to_string(), "y".to_string()]);
    assert_eq!(store.redirect_uris("b"), Some(vec!["z".to_string()]));
}

#[test]
fn rows_that_share_a_key_are_not_opened() {
    let row = |k: &str| Row { key: k.to_string(), stamp: 1, value: () };
    assert!(Store::open(vec![], vec![], vec![row("a"), row("b")], vec![]).is_some());
    assert!(Store::open(vec![], vec![], vec![row("a"), row("a")], vec![]).is_none());
    let client = || ClientRow { client_id: "c".to_string(), redirect_uri: "u".to_string() };
    assert!(Store::open(vec![client()], vec![], vec![], vec![]).is_some());
    assert!(Store::open(vec![client(), client()], vec![], vec![], vec![]).is_none());
}
