use local_mcp::clock::Span;
use local_mcp::exec_ops::{Finished, Jobs, Status};
use local_mcp::json::Json;
use local_mcp::path::AbsPath;
use local_mcp::root::Root;
use local_mcp::server::{
    arguments, cache_hints, detail, exec_tools, execute_report, instructions, is_offered, job_id,
    offered_tools, poll_job, start_report, stop_job, CacheScope,
};
use rmcp::model::ProtocolVersion;

const LATER: Span = Span { secs: 3600, nanos: 0 };
const ZERO: Span = Span { secs: 0, nanos: 0 };

fn hyphenated(id: u128) -> String {
    uuid::Uuid::from_u128(id).to_string()
}

#[test]
fn a_job_outlives_the_session_it_was_started_in() {
    let mut jobs = Jobs::new(LATER);
    let started = start_report(jobs.start("echo across-sessions", Ok(Some(7)), ZERO).unwrap());
    let raw = started
        .trim()
        .rsplit(' ')
        .next()
        .expect("start_command names the job id last")
        .to_string();

    let id = job_id(&raw).unwrap();
    jobs.record(id, b"across-sessions\n", 4096);
    jobs.finish(id, Some(0), Span::from_secs(1));
    jobs.wait(id, true).unwrap().expect("echo finishes well inside the timeout");

    let report = poll_job(&jobs, &raw).expect("the second session knows the job the first one started");
    assert!(report.contains("exited with code 0"), "{report}");
    assert!(report.contains("across-sessions"), "{report}");
    assert_eq!(report, "echo across-sessions\nexited with code 0\n\nacross-sessions\n");
}

#[test]
fn disabling_exec_removes_the_shell_tools() {
    let offered = offered_tools(false);
    for name in exec_tools() {
        assert!(!offered.contains(&name.to_string()), "{name} still offered");
        assert!(!is_offered(&name, false));
        assert!(is_offered(&name, true));
    }
    assert!(offered.contains(&"read_file".to_string()));
    assert_eq!(exec_tools(), vec!["execute", "start_command", "poll_job", "stop_job"]);
    assert_eq!(offered_tools(true).len(), 9);
    assert!(!is_offered("nothing", true));
}

#[test]
fn the_tool_list_is_worth_caching_for_clients_that_can_cache_it() {
    let (ttl_ms, scope) = cache_hints(Some(ProtocolVersion::V_2026_07_28.as_str()))
        .expect("2026-07-28 is where the fields came from");

    assert!(ttl_ms > 0, "ttlMs: 0 asks the client not to cache at all");
    assert_eq!(scope, CacheScope::Public);
    assert_eq!(ttl_ms, 3_600_000);
}

#[test]
fn an_older_client_is_told_nothing_about_caching() {
    assert_eq!(cache_hints(Some(ProtocolVersion::V_2025_06_18.as_str())), None);
    assert_eq!(cache_hints(None), None);
}

#[test]
fn versions_are_compared_as_texts() {
    for version in ["", "2024-11-05", "2026-07-27", "2026-07-2", "2026-07-28", "2026-07-280", "2027", "x"] {
        assert_eq!(cache_hints(Some(version)).is_some(), version >= "2026-07-28", "{version}");
    }
}

#[test]
fn long_arguments_are_shortened_for_the_log() {
    assert!(arguments(None).is_empty());
    let long = "x".repeat(200);
    let given = vec![
        ("path".to_string(), Json::Text("a/b".to_string())),
        ("content".to_string(), Json::Text(long.clone())),
        ("limit".to_string(), Json::Number("3".to_string())),
        ("list".to_string(), Json::Array(vec![Json::Text(long.clone())])),
    ];
    let logged = arguments(Some(given));
    let names: Vec<&str> = logged.iter().map(|f| f.0.as_str()).collect();
    assert_eq!(names, vec!["path", "content", "limit", "list"]);
    assert!(matches!(&logged[0].1, Json::Text(t) if t == "a/b"));
    let expected = format!("{}... [200 bytes]", "x".repeat(160));
    assert!(matches!(&logged[1].1, Json::Text(t) if *t == expected));
    assert!(matches!(&logged[2].1, Json::Number(n) if n == "3"));
    match &logged[3].1 {
        Json::Array(v) => assert!(matches!(&v[0], Json::Text(t) if *t == long)),
        other => panic!("unexpected {other:?}"),
    }
}

#[test]
fn a_failure_is_logged_with_its_first_words() {
    assert_eq!(detail(None), "<no content>");
    assert_eq!(detail(Some("broken")), "broken");
    assert_eq!(
        detail(Some(&"y".repeat(241))),
        format!("{}... [241 bytes]", "y".repeat(240))
    );
}

#[test]
fn job_ids_are_read_in_every_form() {
    let id: u128 = 0x0123_4567_89ab_4def_8123_4567_89ab_cdef;
    assert_eq!(job_id(&hyphenated(id)), Ok(id));
    assert_eq!(job_id("0123456789ab4def8123456789abcdef"), Ok(id));
    assert_eq!(job_id("0123456789AB4DEF8123456789abcdef"), Ok(id));
    assert_eq!(job_id("01234567-89AB-4DEF-8123-456789ABCDEF"), Ok(id));
    assert_eq!(job_id("{01234567-89ab-4def-8123-456789abcdef}"), Ok(id));
    assert_eq!(job_id("urn:uuid:01234567-89ab-4def-8123-456789abcdef"), Ok(id));
    assert_eq!(job_id("URN:Uuid:01234567-89ab-4def-8123-456789abcdef"), Ok(id));
    assert!(job_id("").is_err());
    assert!(job_id("0123456789ab4def8123456789abcdeg").is_err());
    assert!(job_id("0123456789ab4def8123456789abcde").is_err());
    assert!(job_id("012345678-9ab-4def-8123-456789abcdef").is_err());
    assert!(job_id("{0123456789ab4def8123456789abcdef}").is_err());
    assert!(job_id("{01234567-89ab-4def-8123-456789abcdef]").is_err());
    assert!(job_id("uri:uuid:01234567-89ab-4def-8123-456789abcdef").is_err());
    assert!(job_id("0123456789ab4def8123456789abcd\u{e9}").is_err());
    assert!(job_id("0123456789ab4def8123456789abcde\u{e9}").is_err());
    assert_eq!(
        job_id("job-7"),
        Err("not a job id: job-7 (execute and start_command hand one back when they leave \
             something running)"
            .to_string())
    );
}

#[test]
fn execute_reports_the_end_or_the_id() {
    let done = Some(Finished { status: Status::Exited(2), output: "oops\n".to_string() });
    assert_eq!(execute_report(&done, 1, Span::from_secs(30)), "exited with code 2\n\noops\n");
    assert_eq!(
        execute_report(&None, 42, Span { secs: 30, nanos: 5 }),
        "still running after 30s; poll with job_id 00000000-0000-0000-0000-00000000002a"
    );
    assert_eq!(start_report(42), "started job 00000000-0000-0000-0000-00000000002a");
}

#[test]
fn jobs_are_asked_for_by_their_id() {
    let mut jobs = Jobs::new(LATER);
    let id = jobs.start("sleep 30", Ok(Some(99)), ZERO).unwrap();
    assert_eq!(poll_job(&jobs, &hyphenated(id)).unwrap(), "sleep 30\nrunning\n\n");
    assert_eq!(stop_job(&jobs, &hyphenated(id)), Ok((id, -99)));
    assert!(poll_job(&jobs, "?").unwrap_err().starts_with("not a job id: ?"));
    assert!(stop_job(&jobs, "?").unwrap_err().starts_with("not a job id: ?"));
    let unknown = hyphenated(5);
    assert_eq!(poll_job(&jobs, &unknown), Err(format!("no such job: {unknown}")));
    assert_eq!(stop_job(&jobs, &unknown), Err(format!("no such job: {unknown}")));
    jobs.finish(id, Some(0), ZERO);
    assert_eq!(
        stop_job(&jobs, &hyphenated(id)),
        Err(format!("job {} is no longer running", hyphenated(id)))
    );
}

#[test]
fn the_instructions_name_the_root() {
    let root = Root::new("/srv", Ok(AbsPath::parse(b"/srv/app").unwrap())).unwrap();
    assert_eq!(
        instructions(&root, true),
        "File tools are confined to /srv/app; their paths are relative to that root and cannot \
         escape it. Long-running commands return a job_id; poll it with poll_job and end it with \
         stop_job."
    );
    assert_eq!(
        instructions(&root, false),
        "File tools are confined to /srv/app; their paths are relative to that root and cannot \
         escape it. Shell access is disabled on this instance."
    );
}
