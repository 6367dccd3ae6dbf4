//! Shell commands that run in the background, and what is known of them.
//!
//! The table is shared by every session: a job id handed out in one session has
//! to resolve in the next one. Processes are started, read and killed elsewhere;
//! what happens to them is told to the table.
use std::collections::HashMap;

use vstd::prelude::*;

use crate::clock::Span;
use crate::ids::{hyphenated, hyphenated_text, is_random_id, new_id};
use crate::text::{
    from_utf8_lossy, join2, law_signed_decimal, signed_decimal, signed_decimal_text, utf8_lossy,
};

verus! {

broadcast use vstd::std_specs::hash::group_hash_axioms;

/// What has become of a command.
#[derive(Clone, Copy, Debug, PartialEq, Eq, Structural)]
pub enum Status {
    Running,
    Exited(i32),
    Signalled,
}

/// A status in words.
pub open spec fn status_text(s: Status) -> Seq<char> {
    match s {
        Status::Running => "running"@,
        Status::Exited(code) => "exited with code "@ + signed_decimal(code as int),
        Status::Signalled => "terminated by signal"@,
    }
}

impl Status {
    /// Says what has become of the command.
    pub fn text(&self) -> (s: String)
        ensures
            s@ == status_text(*self),
            match *self {
                Status::Running => s@ == "running"@,
                Status::Exited(code) => s@ == "exited with code "@ + signed_decimal(code as int),
                Status::Signalled => s@ == "terminated by signal"@,
            },
    {
        match self {
            Status::Running => "running".to_owned(),
            Status::Exited(code) => {
                let number = signed_decimal_text(*code);
                join2("exited with code ", number.as_str())
            },
            Status::Signalled => "terminated by signal".to_owned(),
        }
    }
}

/// A status with the output up to it.
#[derive(Debug)]
pub struct Finished {
    pub status: Status,
    pub output: String,
}

/// What is known of a command.
struct JobState {
    command: String,
    output: Vec<u8>,
    status: Status,
    /// When the process exited, so that a job that merely finished can be told
    /// from one whose output nobody is coming back for.
    finished_at: Option<Span>,
    /// What a signal to the whole process group is sent to.
    group: Option<i32>,
}

/// What is known of a command.
#[verifier::ext_equal]
pub struct Job {
    pub command: Seq<char>,
    pub output: Seq<u8>,
    pub status: Status,
    pub finished_at: Option<Span>,
    pub group: Option<i32>,
}

impl View for JobState {
    type V = Job;

    closed spec fn view(&self) -> Job {
        Job {
            command: self.command@,
            output: self.output@,
            status: self.status,
            finished_at: self.finished_at,
            group: self.group,
        }
    }
}

/// Why a job could not be started, found or stopped.
#[derive(Debug)]
pub enum JobError {
    NotStarted { command: String, source: String },
    Unknown(u128),
    NotRunning(u128),
    NoPid(u128),
    NotSignalled(u128),
}

/// What a [`JobError`] holds.
pub enum JobTrouble {
    NotStarted { command: Seq<char>, source: Seq<char> },
    Unknown(u128),
    NotRunning(u128),
    NoPid(u128),
    NotSignalled(u128),
}

impl View for JobError {
    type V = JobTrouble;

    open spec fn view(&self) -> JobTrouble {
        match self {
            JobError::NotStarted { command, source } => JobTrouble::NotStarted {
                command: command@,
                source: source@,
            },
            JobError::Unknown(id) => JobTrouble::Unknown(*id),
            JobError::NotRunning(id) => JobTrouble::NotRunning(*id),
            JobError::NoPid(id) => JobTrouble::NoPid(*id),
            JobError::NotSignalled(id) => JobTrouble::NotSignalled(*id),
        }
    }
}

impl JobTrouble {
    /// The error in words, followed by what caused it.
    pub open spec fn said(self) -> Seq<char> {
        match self {
            JobTrouble::NotStarted { command, source } => "cannot start command: "@ + command
                + ": "@ + source,
            JobTrouble::Unknown(id) => "no such job: "@ + hyphenated(id),
            JobTrouble::NotRunning(id) => "job "@ + hyphenated(id) + " is no longer running"@,
            JobTrouble::NoPid(id) => "job "@ + hyphenated(id) + " has no pid"@,
            JobTrouble::NotSignalled(id) => "failed to signal job "@ + hyphenated(id),
        }
    }
}

impl JobError {
    /// Says what went wrong.
    pub fn message(&self) -> (s: String)
        ensures
            s@ == self@.said(),
    {
        match self {
            JobError::NotStarted { command, source } => {
                let mut s = join2("cannot start command: ", command.as_str());
                s.append(": ");
                s.append(source.as_str());
                s
            },
            JobError::Unknown(id) => join2("no such job: ", hyphenated_text(*id).as_str()),
            JobError::NotRunning(id) => {
                let mut s = join2("job ", hyphenated_text(*id).as_str());
                s.append(" is no longer running");
                s
            },
            JobError::NoPid(id) => {
                let mut s = join2("job ", hyphenated_text(*id).as_str());
                s.append(" has no pid");
                s
            },
            JobError::NotSignalled(id) => {
                join2("failed to signal job ", hyphenated_text(*id).as_str())
            },
        }
    }
}

/// Whether a job finished, at `now` or before, at least `retention` ago.
pub open spec fn is_stale(job: Job, now: Span, retention: Span) -> bool {
    job.finished_at matches Some(at) && at.total() + retention.total() <= now.total()
}

/// The jobs that are not stale.
pub open spec fn reaped(jobs: Map<u128, Job>, now: Span, retention: Span) -> Map<u128, Job> {
    Map::new(
        |id: u128| jobs.contains_key(id) && !is_stale(jobs[id], now, retention),
        |id: u128| jobs[id],
    )
}

/// A job that has just started, with the id of its process.
pub open spec fn started(command: Seq<char>, pid: Option<u32>) -> Job {
    Job {
        command,
        output: seq![],
        status: Status::Running,
        finished_at: None,
        group: match pid {
            Some(p) => Some((-(p as int)) as i32),
            None => None,
        },
    }
}

/// Output with a chunk put behind it, as far as there is room.
pub open spec fn with_chunk(output: Seq<u8>, chunk: Seq<u8>, max_output: nat) -> Seq<u8> {
    if output.len() >= max_output {
        output
    } else if output.len() + chunk.len() <= max_output {
        output + chunk
    } else {
        output + chunk.take(max_output - output.len())
    }
}

/// The status of a command that exited: with its code, where it has one.
pub open spec fn exit_status(code: Option<i32>) -> Status {
    match code {
        Some(c) => Status::Exited(c),
        None => Status::Signalled,
    }
}

/// The jobs that are running, and those that finished not long ago.
pub struct Jobs {
    jobs: HashMap<u128, JobState>,
    retention: Span,
}

impl View for Jobs {
    type V = Map<u128, Job>;

    closed spec fn view(&self) -> Map<u128, Job> {
        self.jobs@.map_values(|s: JobState| s@)
    }
}

impl Jobs {
    /// How long a finished job is kept.
    pub closed spec fn kept_for(&self) -> Span {
        self.retention
    }

    /// An empty table, which keeps a finished job for `retention`.
    pub fn new(retention: Span) -> (j: Jobs)
        ensures
            j@ == Map::<u128, Job>::empty(),
            j.kept_for() == retention,
    {
        let j = Jobs { jobs: HashMap::new(), retention };
        assert(j@ =~= Map::<u128, Job>::empty());
        j
    }

    /// Drops the jobs that finished at least the retention ago. A job that is
    /// still running is never dropped, however long it has been going.
    pub fn reap(&mut self, now: Span)
        ensures
            final(self)@ == reaped(old(self)@, now, old(self).kept_for()),
            final(self).kept_for() == old(self).kept_for(),
            forall|id: u128| #[trigger]
                final(self)@.contains_key(id) <==> old(self)@.contains_key(id) && !(old(self)@[id].finished_at matches Some(at) && at.total() + old(self).kept_for().total()
                    <= now.total()),
            forall|id: u128| #[trigger]
                final(self)@.contains_key(id) ==> final(self)@[id] == old(self)@[id],
    {
        let mut ids: Vec<u128> = Vec::new();
        let ghost start = self.jobs@;
        let ghost was = self@;
        let keys = self.jobs.keys();
        let ghost all = vstd::std_specs::iter::IteratorSpec::remaining(&keys).unref();
        for id in it: keys
            invariant
                self.jobs@ == start,
                it.seq().unref() == all,
                ids@ == all.take(it.index() as int),
        {
            ids.push(*id);
            assert(ids@ =~= all.take(it.index() as int + 1));
        }
        assert(all.take(all.len() as int) =~= all);
        assert(ids@.to_set() =~= start.dom());
        let retention: u128 = self.retention.total_nanos();
        let moment: u128 = now.total_nanos();
        let mut i: usize = 0;
        assert(ids@.take(0) =~= seq![]);
        while i < ids.len()
            invariant
                0 <= i <= ids@.len(),
                retention == self.retention.total(),
                self.retention == old(self).retention,
                moment == now.total(),
                was == old(self)@,
                was == start.map_values(|s: JobState| s@),
                forall|id: u128| #[trigger]
                    self.jobs@.contains_key(id) ==> start.contains_key(id) && self.jobs@[id]
                        == start[id],
                forall|id: u128|
                    start.contains_key(id) ==> (#[trigger] self.jobs@.contains_key(id) <==> !(
                    ids@.take(i as int).contains(id) && is_stale(
                        start[id]@,
                        now,
                        self.retention,
                    ))),
            decreases ids@.len() - i,
        {
            let id: u128 = ids[i];
            let ghost before = ids@.take(i as int);
            let ghost after = ids@.take(i as int + 1);
            proof {
                assert forall|k: u128| #[trigger] after.contains(k) <==> (before.contains(k) || k
                    == id) by {
                    if before.contains(k) {
                        let n = choose|n: int| 0 <= n < before.len() && before[n] == k;
                        assert(after[n] == k);
                    }
                    if k == id {
                        assert(after[i as int] == k);
                    }
                    if after.contains(k) {
                        let n = choose|n: int| 0 <= n < after.len() && after[n] == k;
                        if n < i {
                            assert(before[n] == k);
                        }
                    }
                }
            }
            let stale = match self.jobs.get(&id) {
                Some(state) => match &state.finished_at {
                    Some(at) => at.total_nanos() + retention <= moment,
                    None => false,
                },
                None => false,
            };
            if stale {
                let _ = self.jobs.remove(&id);
            }
            i = i + 1;
        }
        proof {
            assert(ids@.take(ids@.len() as int) =~= ids@);
            assert forall|id: u128| start.contains_key(id) implies ids@.contains(id) by {
                assert(ids@.to_set().contains(id));
            }
            assert(self@ =~= reaped(was, now, self.retention));
        }
    }

    /// Takes a command into the table under an id. `spawned` tells how starting it
    /// went: the id of the process where there is one, or why it could not be
    /// started. Stale jobs are dropped on the way, because it is only here that
    /// the table grows.
    pub fn start_as(
        &mut self,
        id: u128,
        command: &str,
        spawned: Result<Option<u32>, String>,
        now: Span,
    ) -> (out: Result<(), JobError>)
        requires
            spawned matches Ok(Some(pid)) ==> pid <= i32::MAX,
        ensures
            final(self).kept_for() == old(self).kept_for(),
            match (spawned, out) {
                (Ok(pid), Ok(_)) => final(self)@ == reaped(
                    old(self)@,
                    now,
                    old(self).kept_for(),
                ).insert(id, started(command@, pid)),
                (Err(why), Err(e)) => e@ == (JobTrouble::NotStarted {
                    command: command@,
                    source: why@,
                }) && final(self)@ == reaped(old(self)@, now, old(self).kept_for()),
                _ => false,
            },
            out is Ok ==> final(self)@.contains_key(id) && final(self)@[id].command == command@
                && final(self)@[id].output.len() == 0 && final(self)@[id].status == Status::Running
                && final(self)@[id].finished_at is None,
            spawned matches Ok(Some(pid)) ==> final(self)@[id].group matches Some(g) && g + pid == 0,
            spawned matches Ok(None) ==> final(self)@[id].group is None,
            forall|other: u128|
                other != id && old(self)@.contains_key(other) ==> (#[trigger] final(self)@.contains_key(other) <==> !(old(self)@[other].finished_at matches Some(at)
                    && at.total() + old(self).kept_for().total() <= now.total())),
            forall|other: u128|
                other != id && #[trigger] final(self)@.contains_key(other) ==> old(self)@.contains_key(other) && final(self)@[other] == old(self)@[other],
    {
        self.reap(now);
        match spawned {
            Err(source) => Err(JobError::NotStarted { command: command.to_owned(), source }),
            Ok(pid) => {
                let group: Option<i32> = match pid {
                    Some(p) => Some(-(p as i32)),
                    None => None,
                };
                let state = JobState {
                    command: command.to_owned(),
                    output: Vec::new(),
                    status: Status::Running,
                    finished_at: None,
                    group,
                };
                let ghost was = self@;
                let _ = self.jobs.insert(id, state);
                assert(state@ =~= started(command@, pid));
                assert(self@ =~= was.insert(id, started(command@, pid)));
                Ok(())
            },
        }
    }

    /// Takes a command into the table under an id chosen at random, and hands
    /// that id out.
    pub fn start(
        &mut self,
        command: &str,
        spawned: Result<Option<u32>, String>,
        now: Span,
    ) -> (out: Result<u128, JobError>)
        requires
            spawned matches Ok(Some(pid)) ==> pid <= i32::MAX,
        ensures
            final(self).kept_for() == old(self).kept_for(),
            match (spawned, out) {
                (Ok(pid), Ok(id)) => is_random_id(id) && final(self)@ == reaped(
                    old(self)@,
                    now,
                    old(self).kept_for(),
                ).insert(id, started(command@, pid)),
                (Err(why), Err(e)) => e@ == (JobTrouble::NotStarted {
                    command: command@,
                    source: why@,
                }) && final(self)@ == reaped(old(self)@, now, old(self).kept_for()),
                _ => false,
            },
    {
        let id: u128 = new_id();
        match self.start_as(id, command, spawned, now) {
            Ok(_) => Ok(id),
            Err(e) => Err(e),
        }
    }

    /// Takes a chunk of a job's output, as far as there is room for it. A job
    /// that is no longer in the table has nobody left to read it.
    pub fn record(&mut self, id: u128, chunk: &[u8], max_output: usize)
        ensures
            final(self).kept_for() == old(self).kept_for(),
            final(self)@ == if old(self)@.contains_key(id) {
                old(self)@.insert(
                    id,
                    (Job {
                        output: with_chunk(old(self)@[id].output, chunk@, max_output as nat),
                        ..old(self)@[id]
                    }),
                )
            } else {
                old(self)@
            },
            final(self)@.contains_key(id) == old(self)@.contains_key(id),
            old(self)@.contains_key(id) ==> ({
                let was = old(self)@[id].output;
                let now = final(self)@[id].output;
                let whole = was + chunk@;
                &&& was.len() >= max_output ==> now == was
                &&& whole.len() <= max_output ==> now == whole
                &&& was.len() < max_output < whole.len() ==> now == whole.take(max_output as int)
            }),
            old(self)@.contains_key(id) ==> final(self)@[id].command == old(self)@[id].command
                && final(self)@[id].status == old(self)@[id].status && final(self)@[id].finished_at
                == old(self)@[id].finished_at && final(self)@[id].group == old(self)@[id].group,
            forall|other: u128|
                other != id ==> final(self)@.contains_key(other) == old(self)@.contains_key(other)
                    && #[trigger] final(self)@[other] == old(self)@[other],
    {
        let ghost was = self@;
        match self.jobs.remove(&id) {
            None => {
                assert(self@ =~= was);
            },
            Some(state) => {
                let mut state = state;
                let ghost job = state@;
                let have: usize = state.output.len();
                if have < max_output {
                    let room: usize = max_output - have;
                    let n: usize = if chunk.len() < room {
                        chunk.len()
                    } else {
                        room
                    };
                    let mut output: Vec<u8> = Vec::new();
                    std::mem::swap(&mut output, &mut state.output);
                    let mut i: usize = 0;
                    assert(output@ =~= job.output + chunk@.take(0));
                    while i < n
                        invariant
                            0 <= i <= n <= chunk@.len(),
                            output@ == job.output + chunk@.take(i as int),
                        decreases n - i,
                    {
                        output.push(chunk[i]);
                        i = i + 1;
                        assert(output@ =~= job.output + chunk@.take(i as int));
                    }
                    assert(chunk@.take(chunk@.len() as int) =~= chunk@);
                    state.output = output;
                }
                let _ = self.jobs.insert(id, state);
                assert(self@ =~= was.insert(
                    id,
                    Job { output: with_chunk(job.output, chunk@, max_output as nat), ..job },
                ));
            },
        }
    }

    /// Notes that a job's process exited, with its code where it has one.
    pub fn finish(&mut self, id: u128, code: Option<i32>, now: Span)
        ensures
            final(self).kept_for() == old(self).kept_for(),
            final(self)@ == if old(self)@.contains_key(id) {
                old(self)@.insert(
                    id,
                    (Job {
                        status: exit_status(code),
                        finished_at: Some(now),
                        ..old(self)@[id]
                    }),
                )
            } else {
                old(self)@
            },
            old(self)@.contains_key(id) ==> final(self)@.contains_key(id),
            code matches Some(c) ==> old(self)@.contains_key(id) ==> final(self)@[id].status
                == Status::Exited(c),
            old(self)@.contains_key(id) && code is None ==> final(self)@[id].status
                == Status::Signalled,
            old(self)@.contains_key(id) ==> final(self)@[id].command == old(self)@[id].command
                && final(self)@[id].output == old(self)@[id].output,
            forall|other: u128|
                other != id ==> final(self)@.contains_key(other) == old(self)@.contains_key(other)
                    && #[trigger] final(self)@[other] == old(self)@[other],
    {
        let ghost was = self@;
        match self.jobs.remove(&id) {
            None => {
                assert(self@ =~= was);
            },
            Some(state) => {
                let mut state = state;
                let ghost job = state@;
                state.status = match code {
                    Some(c) => Status::Exited(c),
                    None => Status::Signalled,
                };
                state.finished_at = Some(now);
                let _ = self.jobs.insert(id, state);
                assert(self@ =~= was.insert(
                    id,
                    Job { status: exit_status(code), finished_at: Some(now), ..job },
                ));
            },
        }
    }

    /// Whether there is a job with an id.
    pub fn knows(&self, id: u128) -> (b: bool)
        ensures
            b == self@.contains_key(id),
    {
        self.jobs.contains_key(&id)
    }

    /// The job with an id.
    fn get(&self, id: u128) -> (out: Result<&JobState, JobError>)
        ensures
            match out {
                Ok(state) => self@.contains_key(id) && self@[id] == state@,
                Err(e) => !self@.contains_key(id) && e@ == JobTrouble::Unknown(id),
            },
    {
        match self.jobs.get(&id) {
            Some(state) => Ok(state),
            None => Err(JobError::Unknown(id)),
        }
    }

    /// The status and the output of a job as they are.
    fn snapshot(state: &JobState) -> (f: Finished)
        ensures
            f.status == state@.status,
            f.output@ == utf8_lossy(state@.output),
    {
        Finished { status: state.status, output: from_utf8_lossy(state.output.as_slice()) }
    }

    /// The command, the status and the output of a job as they are.
    pub fn poll(&self, id: u128) -> (out: Result<(String, Finished), JobError>)
        ensures
            match out {
                Ok((command, f)) => self@.contains_key(id) && command@ == self@[id].command
                    && f.status == self@[id].status && f.output@ == utf8_lossy(self@[id].output),
                Err(e) => !self@.contains_key(id) && e@ == JobTrouble::Unknown(id),
            },
    {
        match self.get(id) {
            Ok(state) => Ok((state.command.as_str().to_owned(), Jobs::snapshot(state))),
            Err(e) => Err(e),
        }
    }

    /// What a wait for a job comes to: its status and output where it finished
    /// within the time that was given, and nothing where it did not.
    pub fn wait(&self, id: u128, finished: bool) -> (out: Result<Option<Finished>, JobError>)
        ensures
            match out {
                Ok(Some(f)) => self@.contains_key(id) && finished && f.status == self@[id].status
                    && f.output@ == utf8_lossy(self@[id].output),
                Ok(None) => self@.contains_key(id) && !finished,
                Err(e) => !self@.contains_key(id) && e@ == JobTrouble::Unknown(id),
            },
    {
        match self.get(id) {
            Ok(state) => {
                if finished {
                    Ok(Some(Jobs::snapshot(state)))
                } else {
                    Ok(None)
                }
            },
            Err(e) => Err(e),
        }
    }

    /// What a signal that stops a job has to be sent to: the process group that
    /// its command was started in, so that everything it spawned is stopped too.
    pub fn stop(&self, id: u128) -> (out: Result<i32, JobError>)
        ensures
            match out {
                Ok(group) => self@.contains_key(id) && self@[id].status == Status::Running
                    && self@[id].group == Some(group),
                Err(e) => e@ == (if !self@.contains_key(id) {
                    JobTrouble::Unknown(id)
                } else if self@[id].status != Status::Running {
                    JobTrouble::NotRunning(id)
                } else {
                    JobTrouble::NoPid(id)
                }) && !(self@.contains_key(id) && self@[id].status == Status::Running
                    && self@[id].group is Some),
            },
    {
        match self.get(id) {
            Err(e) => Err(e),
            Ok(state) => {
                if state.status != Status::Running {
                    return Err(JobError::NotRunning(id));
                }
                match state.group {
                    Some(group) => Ok(group),
                    None => Err(JobError::NoPid(id)),
                }
            },
        }
    }
}

/// What is answered once a job was signalled, or could not be.
pub fn stopped(id: u128, signalled: bool) -> (out: Result<String, JobError>)
    ensures
        match out {
            Ok(s) => signalled && s@ == "stopped job "@ + hyphenated(id),
            Err(e) => !signalled && e@ == JobTrouble::NotSignalled(id),
        },
{
    if signalled {
        Ok(join2("stopped job ", hyphenated_text(id).as_str()))
    } else {
        Err(JobError::NotSignalled(id))
    }
}

/// A job that is still running is never reaped, however long it has been going;
/// nor is one that finished less than the retention ago.
pub proof fn law_reaping_spares(jobs: Map<u128, Job>, id: u128, now: Span, retention: Span)
    requires
        jobs.contains_key(id),
        jobs[id].finished_at matches Some(at) ==> now.total() < at.total() + retention.total(),
    ensures
        reaped(jobs, now, retention).contains_key(id),
        reaped(jobs, now, retention)[id] == jobs[id],
{
}

/// A job that was started resolves from then on, for as long as it runs: through
/// whichever session it is asked for, and whatever is dropped meanwhile.
pub proof fn law_started_job_resolves(
    jobs: Map<u128, Job>,
    id: u128,
    command: Seq<char>,
    pid: Option<u32>,
    now: Span,
    later: Span,
    retention: Span,
)
    ensures
        ({
            let table = reaped(jobs, now, retention).insert(id, started(command, pid));
            &&& reaped(table, later, retention).contains_key(id)
            &&& reaped(table, later, retention)[id] == started(command, pid)
        }),
{
}

/// A finished job is dropped once its retention has passed.
pub proof fn law_stale_jobs_dropped(
    jobs: Map<u128, Job>,
    id: u128,
    at: Span,
    now: Span,
    retention: Span,
)
    requires
        jobs.contains_key(id),
        jobs[id].finished_at == Some(at),
        at.total() + retention.total() <= now.total(),
    ensures
        !reaped(jobs, now, retention).contains_key(id),
{
}

/// The output that is kept of a job never grows past the limit, and what was
/// kept of it is never lost.
pub proof fn law_output_bounded(output: Seq<u8>, chunk: Seq<u8>, max_output: nat)
    requires
        output.len() <= max_output,
    ensures
        with_chunk(output, chunk, max_output).len() <= max_output,
        output.is_prefix_of(with_chunk(output, chunk, max_output)),
{
    assert(with_chunk(output, chunk, max_output).subrange(0, output.len() as int) =~= output);
}

/// No two ends of a command are told alike: what is said of one gives its exit
/// code away, or that it has none.
pub proof fn law_status_told_apart(a: Status, b: Status)
    requires
        status_text(a) == status_text(b),
    ensures
        a == b,
{
    reveal_strlit("running");
    reveal_strlit("exited with code ");
    reveal_strlit("terminated by signal");
    let x = status_text(a);
    assert(x[0] == status_text(b)[0]);
    match (a, b) {
        (Status::Exited(c), Status::Exited(d)) => {
            law_signed_decimal(c as int, d as int);
            assert(x.skip(17) =~= signed_decimal(c as int));
            assert(status_text(b).skip(17) =~= signed_decimal(d as int));
        },
        _ => {},
    }
}

/// A command that exits is known by its code, each code by itself, and one that
/// was ended by a signal by having none.
pub proof fn law_exit_code_kept(c: i32)
    ensures
        exit_status(Some(c)) == Status::Exited(c),
        exit_status(None) == Status::Signalled,
{
}

/// What is kept of a job's output after some chunks of it.
pub open spec fn kept_output(chunks: Seq<Seq<u8>>, max_output: nat) -> Seq<u8>
    decreases chunks.len(),
{
    if chunks.len() == 0 {
        seq![]
    } else {
        with_chunk(kept_output(chunks.drop_last(), max_output), chunks.last(), max_output)
    }
}

/// What is kept of a job's output is what it put out first, up to the limit,
/// however it was cut into chunks.
pub proof fn law_start_of_output_kept(chunks: Seq<Seq<u8>>, max_output: nat)
    ensures
        ({
            let whole = chunks.flatten();
            kept_output(chunks, max_output) == if whole.len() <= max_output {
                whole
            } else {
                whole.take(max_output as int)
            }
        }),
    decreases chunks.len(),
{
    let whole = chunks.flatten();
    if chunks.len() == 0 {
        assert(kept_output(chunks, max_output) =~= whole);
    } else {
        let before = chunks.drop_last();
        law_start_of_output_kept(before, max_output);
        chunks.lemma_flatten_and_flatten_alt_are_equivalent();
        before.lemma_flatten_and_flatten_alt_are_equivalent();
        let head = before.flatten();
        assert(whole =~= head + chunks.last());
        let kept = kept_output(before, max_output);
        assert(kept_output(chunks, max_output) =~= if whole.len() <= max_output {
            whole
        } else {
            whole.take(max_output as int)
        });
    }
}

/// What is said of a job that is not known, not running or cannot be signalled
/// names it; a command that could not be started is named with the reason.
pub proof fn law_job_errors_name_the_job(id: u128, command: Seq<char>, source: Seq<char>)
    ensures
        exists|a: Seq<char>| JobTrouble::Unknown(id).said() == #[trigger] (a + hyphenated(id)),
        exists|a: Seq<char>, b: Seq<char>|
            JobTrouble::NotRunning(id).said() == #[trigger] (a + hyphenated(id) + b),
        exists|a: Seq<char>, b: Seq<char>|
            JobTrouble::NoPid(id).said() == #[trigger] (a + hyphenated(id) + b),
        exists|a: Seq<char>| JobTrouble::NotSignalled(id).said() == #[trigger] (a + hyphenated(id)),
        exists|a: Seq<char>, b: Seq<char>|
            (JobTrouble::NotStarted { command, source }).said() == #[trigger] (a + command + b
                + source),
{
    assert(JobTrouble::Unknown(id).said() == "no such job: "@ + hyphenated(id));
    assert(JobTrouble::NotRunning(id).said() == "job "@ + hyphenated(id)
        + " is no longer running"@);
    assert(JobTrouble::NoPid(id).said() == "job "@ + hyphenated(id) + " has no pid"@);
    assert(JobTrouble::NotSignalled(id).said() == "failed to signal job "@ + hyphenated(id));
    assert((JobTrouble::NotStarted { command, source }).said() == "cannot start command: "@ + command
        + ": "@ + source);
}

} // verus!
