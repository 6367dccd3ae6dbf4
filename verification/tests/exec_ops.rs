use std::sync::{Arc, Mutex};

use local_mcp::clock::Span;
use local_mcp::exec_ops::{stopped, Jobs, Status};

const MAX: usize = 4096;
/// Long enough that nothing is reaped while a test is looking at it.
const FOREVER: Span = Span { secs: 3600, nanos: 0 };
const ZERO: Span = Span { secs: 0, nanos: 0 };

fn at(secs: u64) -> Span {
    Span { secs, nanos: 0 }
}

fn uuid_text(id: u128) -> String {
    uuid::Uuid::from_u128(id).to_string()
}

#[test]
fn a_job_started_on_one_clone_resolves_through_another() {
    let first = Arc::new(Mutex::new(Jobs::new(FOREVER)));
    let second = first.clone();

    let id = first.lock().unwrap().start("echo shared", Ok(Some(7)), at(0)).unwrap();
    first.lock().unwrap().record(id, b"shared\n", MAX);
    first.lock().unwrap().finish(id, Some(0), at(1));
    let finished = second.lock().unwrap().wait(id, true).unwrap().unwrap();

    assert_eq!(finished.status, Status::Exited(0));
    assert_eq!(finished.output.trim(), "shared");
    assert_eq!(second.lock().unwrap().poll(id).unwrap().0, "echo shared");
}

#[test]
fn a_finished_job_is_dropped_once_its_retention_has_passed() {
    let mut jobs = Jobs::new(ZERO);
    let stale = jobs.start("true", Ok(Some(7)), at(0)).unwrap();
    jobs.finish(stale, Some(0), at(1));

    // Reaping happens on `start`, so it takes a second job to trigger it.
    jobs.start("true", Ok(Some(8)), at(1)).unwrap();

    assert!(jobs.poll(stale).is_err(), "a job past its retention should be gone");
}

#[test]
fn a_finished_job_is_kept_within_its_retention() {
    let mut jobs = Jobs::new(at(10));
    let done = jobs.start("true", Ok(None), at(0)).unwrap();
    jobs.finish(done, Some(0), at(5));
    jobs.reap(Span { secs: 14, nanos: 999_999_999 });
    assert!(jobs.poll(done).is_ok());
    jobs.reap(at(15));
    assert!(jobs.poll(done).is_err());
}

#[test]
fn a_running_job_is_never_reaped() {
    let mut jobs = Jobs::new(ZERO);
    let running = jobs.start("sleep 30", Ok(Some(7)), at(0)).unwrap();
    jobs.start("true", Ok(Some(8)), at(1_000_000)).unwrap();

    let (command, snapshot) = jobs.poll(running).expect("still running, so still known");
    assert_eq!(command, "sleep 30");
    assert_eq!(snapshot.status, Status::Running);

    assert_eq!(jobs.stop(running).unwrap(), -7);
}

#[test]
fn a_dead_job_cannot_be_stopped_twice() {
    let mut jobs = Jobs::new(FOREVER);
    let id = jobs.start("sleep 30 & sleep 30", Ok(Some(4321)), at(0)).unwrap();
    assert_eq!(jobs.stop(id).unwrap(), -4321);
    jobs.finish(id, None, at(1));

    let finished = jobs.wait(id, true).unwrap().unwrap();
    assert_eq!(finished.status, Status::Signalled);
    assert_eq!(
        jobs.stop(id).unwrap_err().message(),
        format!("job {} is no longer running", uuid_text(id))
    );
}

#[test]
fn a_job_that_does_not_finish_in_time_is_left_running() {
    let mut jobs = Jobs::new(FOREVER);
    let id = jobs.start("sleep 30", Ok(Some(7)), at(0)).unwrap();
    assert!(jobs.wait(id, false).unwrap().is_none());
}

#[test]
fn output_is_kept_up_to_the_limit() {
    let mut jobs = Jobs::new(FOREVER);
    let id = jobs.start("yes", Ok(Some(7)), at(0)).unwrap();
    jobs.record(id, b"12345", 8);
    jobs.record(id, b"67890", 8);
    jobs.record(id, b"more", 8);
    assert_eq!(jobs.poll(id).unwrap().1.output, "12345678");
    jobs.record(id, &[0xff, b'!'], 10);
    assert_eq!(jobs.poll(id).unwrap().1.output, "12345678\u{fffd}!");
    let other = jobs.start("cat", Ok(Some(8)), at(0)).unwrap();
    jobs.record(other, "\u{20ac}5 \u{1f980}".as_bytes(), 20);
    assert_eq!(jobs.poll(other).unwrap().1.output, "\u{20ac}5 \u{1f980}");
    jobs.record(1, b"nobody", 8);
    assert!(jobs.poll(1).is_err());
}

#[test]
fn every_error_has_its_words() {
    let mut jobs = Jobs::new(FOREVER);
    let error = jobs.start("boom", Err("not today".to_string()), at(0)).unwrap_err();
    assert_eq!(error.message(), "cannot start command: boom: not today");
    let unknown = "no such job: 00000000-0000-0000-0000-00000000002a";
    assert_eq!(jobs.poll(42).unwrap_err().message(), unknown);
    assert_eq!(jobs.wait(42, true).unwrap_err().message(), unknown);
    assert_eq!(jobs.stop(42).unwrap_err().message(), unknown);
    let id = jobs.start("x", Ok(None), at(0)).unwrap();
    assert_eq!(
        jobs.stop(id).unwrap_err().message(),
        format!("job {} has no pid", uuid_text(id))
    );
    assert_eq!(
        stopped(id, false).unwrap_err().message(),
        format!("failed to signal job {}", uuid_text(id))
    );
    assert_eq!(stopped(id, true).unwrap(), format!("stopped job {}", uuid_text(id)));
}

#[test]
fn ids_are_random_uuids() {
    let mut jobs = Jobs::new(FOREVER);
    let a = jobs.start("a", Ok(None), at(0)).unwrap();
    let b = jobs.start("b", Ok(None), at(0)).unwrap();
    assert_ne!(a, b);
    assert_eq!(uuid::Uuid::from_u128(a).get_version_num(), 4);
    assert_eq!(uuid::Uuid::from_u128(a).get_variant(), uuid::Variant::RFC4122);
}

#[test]
fn a_status_in_words() {
    assert_eq!(Status::Running.text(), "running");
    assert_eq!(Status::Exited(0).text(), "exited with code 0");
    assert_eq!(Status::Exited(-3).text(), "exited with code -3");
    assert_eq!(Status::Signalled.text(), "terminated by signal");
}

#[test]
fn a_job_can_be_started_under_a_given_id() {
    let mut jobs = Jobs::new(FOREVER);
    jobs.start_as(42, "sleep 1", Ok(Some(9)), at(0)).unwrap();
    assert!(jobs.knows(42) && !jobs.knows(43));
    assert_eq!(jobs.poll(42).unwrap().0, "sleep 1");
    assert_eq!(jobs.stop(42).unwrap(), -9);
    let error = jobs.start_as(43, "boom", Err("no".to_string()), at(0)).unwrap_err();
    assert_eq!(error.message(), "cannot start command: boom: no");
    assert!(!jobs.knows(43));
}
