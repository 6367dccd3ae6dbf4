use local_mcp::clock::Timestamp;
use local_mcp::store::Store;
use rmcp::model::ClientInfo;

const NOW: Timestamp = Timestamp { secs: 1_800_000_000, nanos: 0 };

fn sessions() -> Store {
    Store::open(vec![], vec![], vec![], vec![]).unwrap()
}

#[test]
fn a_stored_handshake_comes_back_as_it_went_in() {
    let mut sessions = sessions();
    let client_info = ClientInfo::default();

    let handshake = serde_json::to_string(&client_info).expect("store");
    sessions.save_session("session-abc", &handshake, NOW);
    let loaded = sessions.load_session("session-abc", NOW).expect("the id was just stored");
    let loaded: ClientInfo = serde_json::from_str(&loaded).expect("load");

    assert_eq!(loaded.protocol_version, client_info.protocol_version);
    assert_eq!(loaded.client_info.name, client_info.client_info.name);
}

#[test]
fn an_unknown_session_is_absent_rather_than_an_error() {
    assert!(sessions().load_session("never-issued", NOW).is_none());
}

#[test]
fn a_deleted_session_is_no_longer_loadable() {
    let mut sessions = sessions();
    let handshake = serde_json::to_string(&ClientInfo::default()).expect("store");
    sessions.save_session("session-abc", &handshake, NOW);
    sessions.delete_session("session-abc");

    assert!(sessions.load_session("session-abc", NOW).is_none());
}
