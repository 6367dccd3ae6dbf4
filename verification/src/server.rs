//! The tools as a client sees them: which are offered, what they are asked, and
//! how they answer.
use vstd::prelude::*;
use vstd::utf8::encode_utf8;

use crate::clock::Span;
use crate::exec_ops::{status_text, Finished, Job, JobTrouble, Jobs, Status};
use crate::ids::{hyphenated, hyphenated_text, law_id_reads_back, parse_id, read_id};
use crate::json::{fields, Data, Json};
use crate::root::Root;
use crate::text::{decimal, decimal_text, elide, elided, join2, law_elided, same_text, utf8_lossy, views};

verus! {

/// What `read_file` is asked.
#[derive(Debug)]
pub struct ReadFileArgs {
    /// Path relative to the sandbox root.
    pub path: String,
    /// Zero-based line number to start from.
    pub offset: Option<u32>,
    /// Maximum number of lines to return.
    pub limit: Option<u32>,
}

/// What `write_file` is asked.
#[derive(Debug)]
pub struct WriteFileArgs {
    /// Path relative to the sandbox root. Parent directories are created.
    pub path: String,
    /// Full contents to write, replacing anything already there.
    pub content: String,
}

/// What `edit_file` is asked.
#[derive(Debug)]
pub struct EditFileArgs {
    /// Path relative to the sandbox root.
    pub path: String,
    /// Exact text to replace. Must occur exactly once in the file.
    pub old_text: String,
    /// Replacement text.
    pub new_text: String,
}

/// What `list_dir` is asked.
#[derive(Debug)]
pub struct ListDirArgs {
    /// Directory relative to the sandbox root. Defaults to the root.
    pub path: Option<String>,
    /// How deep to descend. Defaults to 1.
    pub depth: Option<u32>,
}

/// What `search` is asked.
#[derive(Debug)]
pub struct SearchArgs {
    /// Rust regular expression to match against each line.
    pub pattern: String,
    /// Directory to search under. Defaults to the sandbox root.
    pub path: Option<String>,
    /// Stop after this many matching lines. Defaults to 200.
    pub max_results: Option<u32>,
}

/// What `execute` and `start_command` are asked.
#[derive(Debug)]
pub struct CommandArgs {
    /// Shell command, run with `sh -c` from the sandbox root.
    pub command: String,
}

/// What `poll_job` and `stop_job` are asked.
#[derive(Debug)]
pub struct JobArgs {
    /// Job id returned by `execute` or `start_command`.
    pub job_id: String,
}

/// The tools that touch files.
pub open spec fn file_tool_names() -> Seq<Seq<char>> {
    seq!["read_file"@, "write_file"@, "edit_file"@, "list_dir"@, "search"@]
}

/// The tools that run commands.
pub open spec fn exec_tool_names() -> Seq<Seq<char>> {
    seq!["execute"@, "start_command"@, "poll_job"@, "stop_job"@]
}

/// The tools that are offered.
pub open spec fn offered_names(allow_exec: bool) -> Seq<Seq<char>> {
    if allow_exec {
        file_tool_names() + exec_tool_names()
    } else {
        file_tool_names()
    }
}

/// The tools that run commands.
pub fn exec_tools() -> (names: Vec<String>)
    ensures
        views(names@) == exec_tool_names(),
{
    let mut v: Vec<String> = Vec::new();
    v.push("execute".to_owned());
    v.push("start_command".to_owned());
    v.push("poll_job".to_owned());
    v.push("stop_job".to_owned());
    assert(views(v@) =~= exec_tool_names());
    v
}

/// The tools that are offered: without a shell, those that run commands are gone
/// altogether.
pub fn offered_tools(allow_exec: bool) -> (names: Vec<String>)
    ensures
        views(names@) == offered_names(allow_exec),
{
    let mut v: Vec<String> = Vec::new();
    v.push("read_file".to_owned());
    v.push("write_file".to_owned());
    v.push("edit_file".to_owned());
    v.push("list_dir".to_owned());
    v.push("search".to_owned());
    assert(views(v@) =~= file_tool_names());
    if allow_exec {
        let ghost before = views(v@);
        let mut more = exec_tools();
        let ghost added = more@;
        v.append(&mut more);
        assert(views(v@) =~= before + views(added));
    }
    v
}

/// Whether a tool is offered.
pub fn is_offered(name: &str, allow_exec: bool) -> (b: bool)
    ensures
        b == offered_names(allow_exec).contains(name@),
{
    let tools = offered_tools(allow_exec);
    let ghost all = views(tools@);
    let mut i: usize = 0;
    while i < tools.len()
        invariant
            0 <= i <= tools@.len(),
            all == views(tools@),
            all == offered_names(allow_exec),
            forall|k: int| 0 <= k < i ==> all[k] != name@,
        decreases tools@.len() - i,
    {
        assert(all[i as int] == tools@[i as int]@);
        if same_text(tools[i].as_str(), name) {
            return true;
        }
        i = i + 1;
    }
    false
}

/// Without a shell, no tool that runs commands is offered, and every file tool
/// still is.
pub proof fn law_no_shell_tools(name: Seq<char>)
    ensures
        offered_names(false).contains(name) ==> !exec_tool_names().contains(name),
        offered_names(true).contains(name) <==> file_tool_names().contains(name)
            || exec_tool_names().contains(name),
        offered_names(false).contains(name) <==> file_tool_names().contains(name),
{
    reveal_strlit("read_file");
    reveal_strlit("write_file");
    reveal_strlit("edit_file");
    reveal_strlit("list_dir");
    reveal_strlit("search");
    reveal_strlit("execute");
    reveal_strlit("start_command");
    reveal_strlit("poll_job");
    reveal_strlit("stop_job");
    let files = file_tool_names();
    let shell = exec_tool_names();
    assert forall|i: int, j: int| 0 <= i < files.len() && 0 <= j < shell.len() implies files[i]
        != shell[j] by {
        assert(files[i][0] != shell[j][0] || files[i].len() != shell[j].len());
    }
    let all = offered_names(true);
    if files.contains(name) {
        let i = choose|i: int| 0 <= i < files.len() && files[i] == name;
        assert(all[i] == name);
    }
    if shell.contains(name) {
        let j = choose|j: int| 0 <= j < shell.len() && shell[j] == name;
        assert(all[files.len() + j] == name);
    }
}

/// Who may reuse a list.
#[derive(Clone, Copy, Debug, PartialEq, Eq, Structural)]
pub enum CacheScope {
    Public,
    Private,
}

/// How long a client may reuse the list of tools, in milliseconds. The list only
/// changes when the server does.
pub const TOOL_LIST_TTL_MS: u64 = 3_600_000;

/// Whether one text comes before another, byte by byte.
pub open spec fn precedes(a: Seq<u8>, b: Seq<u8>) -> bool
    decreases a.len(),
{
    if b.len() == 0 {
        false
    } else if a.len() == 0 {
        true
    } else {
        a[0] < b[0] || (a[0] == b[0] && precedes(a.drop_first(), b.drop_first()))
    }
}

/// The first protocol version in which a list says how long it may be reused.
pub open spec fn caching_version() -> Seq<char> {
    "2026-07-28"@
}

/// Whether one text comes before another, byte by byte.
fn comes_before(a: &[u8], b: &[u8]) -> (r: bool)
    ensures
        r == precedes(a@, b@),
{
    let mut i: usize = 0;
    assert(a@.skip(0) =~= a@);
    assert(b@.skip(0) =~= b@);
    while i < a.len() && i < b.len()
        invariant
            i <= a@.len(),
            i <= b@.len(),
            precedes(a@, b@) == precedes(a@.skip(i as int), b@.skip(i as int)),
        decreases a@.len() - i,
    {
        assert(a@.skip(i as int)[0] == a@[i as int]);
        assert(b@.skip(i as int)[0] == b@[i as int]);
        if a[i] < b[i] {
            return true;
        }
        if a[i] > b[i] {
            return false;
        }
        assert(a@.skip(i as int).drop_first() =~= a@.skip(i as int + 1));
        assert(b@.skip(i as int).drop_first() =~= b@.skip(i as int + 1));
        i = i + 1;
    }
    i < b.len()
}

/// How long the list of tools may be reused, and by whom. A client older than
/// the fields is told nothing, because it could not read them. The list is the
/// same for everyone who gets in, so anyone may reuse it.
pub fn cache_hints(version: Option<&str>) -> (hints: Option<(u64, CacheScope)>)
    ensures
        hints == (match version {
            Some(v) if !precedes(encode_utf8(v@), encode_utf8(caching_version())) => Some(
                (TOOL_LIST_TTL_MS, CacheScope::Public),
            ),
            _ => None,
        }),
        hints matches Some((ms, scope)) ==> ms == 3_600_000 && scope == CacheScope::Public,
        hints is Some <==> (version matches Some(v) && !precedes(
            encode_utf8(v@),
            encode_utf8("2026-07-28"@),
        )),
{
    match version {
        None => None,
        Some(v) => {
            if comes_before(v.as_bytes(), "2026-07-28".as_bytes()) {
                None
            } else {
                Some((TOOL_LIST_TTL_MS, CacheScope::Public))
            }
        },
    }
}

/// The longest text argument that goes into the log as it is.
pub const ARGUMENT_ELISION: usize = 160;

/// The longest description of a failure that goes into the log.
pub const DETAIL_ELISION: usize = 240;

/// An argument as it is logged.
pub open spec fn logged(value: Data) -> Data {
    match value {
        Data::Text(t) => Data::Text(elided(t, ARGUMENT_ELISION as nat)),
        other => other,
    }
}

/// Shortens the long texts among the arguments of a call, for the log.
pub fn arguments(args: Option<Vec<(String, Json)>>) -> (out: Vec<(String, Json)>)
    ensures
        fields(out@) == (match args {
            Some(v) => fields(v@).map_values(|f: (Seq<char>, Data)| (f.0, logged(f.1))),
            None => seq![],
        }),
        args matches Some(v) ==> out@.len() == v@.len() && forall|i: int|
            0 <= i < v@.len() ==> (#[trigger] out@[i]).0@ == v@[i].0@ && out@[i].1@ == logged(
                v@[i].1@,
            ),
        args is None ==> out@.len() == 0,
{
    let mut out: Vec<(String, Json)> = Vec::new();
    match args {
        None => {
            assert(fields(out@) =~= seq![]);
            out
        },
        Some(v) => {
            let ghost all = fields(v@).map_values(|f: (Seq<char>, Data)| (f.0, logged(f.1)));
            let ghost given = v@;
            let mut rest = v;
            let mut done: Vec<(String, Json)> = Vec::new();
            // Taken from the back, so that each value is moved rather than copied.
            while rest.len() > 0
                invariant
                    rest@ == given.take(rest@.len() as int),
                    rest@.len() + done@.len() == given.len(),
                    all == fields(given).map_values(
                        |f: (Seq<char>, Data)| (f.0, logged(f.1)),
                    ),
                    forall|k: int|
                        0 <= k < done@.len() ==> ((#[trigger] done@[k]).0@, done@[k].1@)
                            == all[given.len() - 1 - k],
                decreases rest@.len(),
            {
                let ghost n = rest@.len() as int;
                match rest.pop() {
                    Some((key, value)) => {
                        assert(given[n - 1] == (key, value));
                        assert(all[n - 1] == (key@, logged(value@)));
                        let value = match value {
                            Json::Text(t) => Json::Text(elide(t.as_str(), ARGUMENT_ELISION)),
                            other => {
                                assert(logged(other@) == other@);
                                other
                            },
                        };
                        done.push((key, value));
                    },
                    None => {},
                }
            }
            while done.len() > 0
                invariant
                    done@.len() + out@.len() == given.len(),
                    all.len() == given.len(),
                    forall|k: int|
                        0 <= k < done@.len() ==> ((#[trigger] done@[k]).0@, done@[k].1@)
                            == all[given.len() - 1 - k],
                    forall|k: int|
                        0 <= k < out@.len() ==> ((#[trigger] out@[k]).0@, out@[k].1@) == all[k],
                decreases done@.len(),
            {
                match done.pop() {
                    Some(field) => {
                        out.push(field);
                    },
                    None => {},
                }
            }
            assert(fields(out@) =~= all);
            out
        },
    }
}

/// What a tool said when it reported a failure of its own: the text of what it
/// answered first.
pub fn detail(first: Option<&str>) -> (out: String)
    ensures
        out@ == (match first {
            Some(t) => elided(t@, DETAIL_ELISION as nat),
            None => "<no content>"@,
        }),
        first matches Some(t) ==> t@.len() <= 240 ==> out@ == t@,
        first matches Some(t) ==> t@.len() > 240 ==> t@.take(240).is_prefix_of(out@),
{
    proof {
        if let Some(t) = first {
            law_elided(t@, 240);
        }
    }
    match first {
        Some(t) => elide(t, DETAIL_ELISION),
        None => "<no content>".to_owned(),
    }
}

/// What is told of something that is no job id.
pub open spec fn no_job_id(raw: Seq<char>) -> Seq<char> {
    "not a job id: "@ + raw
        + " (execute and start_command hand one back when they leave something running)"@
}

/// The job id that was read, or what is told where none was.
pub fn job_id_read(raw: &str, id: Option<u128>) -> (out: Result<u128, String>)
    ensures
        match (id, out) {
            (Some(n), Ok(m)) => n == m,
            (None, Err(s)) => s@ == no_job_id(raw@),
            _ => false,
        },
{
    match id {
        Some(n) => Ok(n),
        None => {
            let mut s = join2("not a job id: ", raw);
            s.append(" (execute and start_command hand one back when they leave something running)");
            Err(s)
        },
    }
}

/// Reads a job id.
pub fn job_id(raw: &str) -> (out: Result<u128, String>)
    ensures
        match out {
            Ok(id) => read_id(raw@) == Some(id),
            Err(s) => read_id(raw@) is None && s@ == no_job_id(raw@),
        },
        forall|n: u128| raw@ == #[trigger] hyphenated(n) ==> out == Ok::<u128, String>(n),
{
    proof {
        assert forall|n: u128| raw@ == #[trigger] hyphenated(n) implies read_id(raw@) == Some(n) by {
            law_id_reads_back(n);
        }
    }
    job_id_read(raw, parse_id(raw))
}

/// A status and an output, as they are reported.
pub open spec fn report(status: Status, output: Seq<char>) -> Seq<char> {
    status_text(status) + "\n\n"@ + output
}

/// What `execute` answers: how the command ended, or how to ask about it.
pub fn execute_report(finished: &Option<Finished>, id: u128, timeout: Span) -> (s: String)
    ensures
        s@ == (match finished {
            Some(f) => report(f.status, f.output@),
            None => "still running after "@ + decimal(timeout.secs as nat)
                + "s; poll with job_id "@ + hyphenated(id),
        }),
        finished matches Some(f) ==> s@ == status_text(f.status) + "\n\n"@ + f.output@,
{
    match finished {
        Some(f) => {
            let mut s = f.status.text();
            s.append("\n\n");
            s.append(f.output.as_str());
            s
        },
        None => {
            let mut s = join2("still running after ", decimal_text(timeout.secs).as_str());
            s.append("s; poll with job_id ");
            s.append(hyphenated_text(id).as_str());
            s
        },
    }
}

/// What `start_command` answers.
pub fn start_report(id: u128) -> (s: String)
    ensures
        s@ == "started job "@ + hyphenated(id),
{
    join2("started job ", hyphenated_text(id).as_str())
}

/// What is told of a job error.
pub open spec fn job_answer(jobs: Map<u128, Job>, raw: Seq<char>) -> Result<Seq<char>, Seq<char>> {
    match read_id(raw) {
        None => Err(no_job_id(raw)),
        Some(id) => if jobs.contains_key(id) {
            Ok(jobs[id].command + "\n"@ + report(jobs[id].status, utf8_lossy(jobs[id].output)))
        } else {
            Err(JobTrouble::Unknown(id).said())
        },
    }
}

/// Answers `poll_job`: the command, its status and its output so far.
pub fn poll_job(jobs: &Jobs, raw: &str) -> (out: Result<String, String>)
    ensures
        (match out {
            Ok(s) => Ok(s@),
            Err(e) => Err(e@),
        }) == job_answer(jobs@, raw@),
        out is Ok <==> (read_id(raw@) matches Some(id) && jobs@.contains_key(id)),
        out matches Ok(s) ==> (read_id(raw@) matches Some(id) && s@ == jobs@[id].command + "\n"@ + (
        status_text(jobs@[id].status) + "\n\n"@ + utf8_lossy(jobs@[id].output))),
{
    let id: u128 = match job_id(raw) {
        Ok(id) => id,
        Err(e) => {
            return Err(e);
        },
    };
    match jobs.poll(id) {
        Err(e) => Err(e.message()),
        Ok((command, f)) => {
            let mut s = join2(command.as_str(), "\n");
            let mut rest = f.status.text();
            rest.append("\n\n");
            rest.append(f.output.as_str());
            s.append(rest.as_str());
            Ok(s)
        },
    }
}

/// Answers `stop_job` as far as the table decides: which job is meant, and what
/// has to be signalled.
pub fn stop_job(jobs: &Jobs, raw: &str) -> (out: Result<(u128, i32), String>)
    ensures
        match out {
            Ok((id, group)) => read_id(raw@) == Some(id) && jobs@.contains_key(id)
                && jobs@[id].status == Status::Running && jobs@[id].group == Some(group),
            Err(s) => match read_id(raw@) {
                None => s@ == no_job_id(raw@),
                Some(id) => if !jobs@.contains_key(id) {
                    s@ == JobTrouble::Unknown(id).said()
                } else if jobs@[id].status != Status::Running {
                    s@ == JobTrouble::NotRunning(id).said()
                } else {
                    jobs@[id].group is None && s@ == JobTrouble::NoPid(id).said()
                },
            },
        },
{
    let id: u128 = match job_id(raw) {
        Ok(id) => id,
        Err(e) => {
            return Err(e);
        },
    };
    match jobs.stop(id) {
        Ok(group) => Ok((id, group)),
        Err(e) => Err(e.message()),
    }
}

/// What the server says of itself.
pub open spec fn instructions_text(root: Seq<char>, allow_exec: bool) -> Seq<char> {
    "File tools are confined to "@ + root
        + "; their paths are relative to that root and cannot escape it."@ + (if allow_exec {
        " Long-running commands return a job_id; poll it with poll_job and end it with stop_job."@
    } else {
        " Shell access is disabled on this instance."@
    })
}

/// Says what the server does, for a root as it is shown.
pub fn instructions_for(root: &str, allow_exec: bool) -> (s: String)
    ensures
        s@ == instructions_text(root@, allow_exec),
{
    let mut s = join2("File tools are confined to ", root);
    s.append("; their paths are relative to that root and cannot escape it.");
    if allow_exec {
        s.append(
            " Long-running commands return a job_id; poll it with poll_job and end it with stop_job.",
        );
    } else {
        s.append(" Shell access is disabled on this instance.");
    }
    s
}

/// Says what the server does.
pub fn instructions(root: &Root, allow_exec: bool) -> (s: String)
    ensures
        s@ == instructions_text(utf8_lossy(crate::path::written(root@)), allow_exec),
{
    let shown = root.path().display();
    instructions_for(shown.as_str(), allow_exec)
}

/// One text comes before another where it is a part of its start, or where the
/// first byte in which they differ is smaller.
pub proof fn law_precedes(a: Seq<u8>, b: Seq<u8>)
    ensures
        precedes(a, b) <==> exists|k: int|
            0 <= k <= a.len() && k < b.len() && #[trigger] a.take(k) == b.take(k) && (k == a.len()
                || a[k] < b[k]),
    decreases a.len(),
{
    if b.len() > 0 && a.len() == 0 {
        assert(a.take(0) =~= b.take(0));
    } else if b.len() > 0 {
        let x = a.drop_first();
        let y = b.drop_first();
        law_precedes(x, y);
        if a[0] < b[0] {
            assert(a.take(0) =~= b.take(0));
        }
        if a[0] == b[0] && precedes(x, y) {
            let k = choose|k: int|
                0 <= k <= x.len() && k < y.len() && #[trigger] x.take(k) == y.take(k) && (k
                    == x.len() || x[k] < y[k]);
            assert(a.take(k + 1) =~= seq![a[0]] + x.take(k));
            assert(b.take(k + 1) =~= seq![b[0]] + y.take(k));
        }
        if exists|k: int|
            0 <= k <= a.len() && k < b.len() && #[trigger] a.take(k) == b.take(k) && (k == a.len()
                || a[k] < b[k]) {
            let k = choose|k: int|
                0 <= k <= a.len() && k < b.len() && #[trigger] a.take(k) == b.take(k) && (k
                    == a.len() || a[k] < b[k]);
            if k > 0 {
                assert(a.take(k)[0] == b.take(k)[0]);
                assert(x.take(k - 1) =~= a.take(k).drop_first());
                assert(y.take(k - 1) =~= b.take(k).drop_first());
                assert(x.take(k - 1) == y.take(k - 1));
            }
        }
    }
}

/// What is logged of an argument: a text of up to 160 characters, and anything
/// that is no text, as it is; a longer text by its start, with its size.
pub proof fn law_logged(value: Data)
    ensures
        value !is Text ==> logged(value) == value,
        value matches Data::Text(t) ==> (logged(value) matches Data::Text(s) && (t.len() <= 160
            ==> s == t) && (t.len() > 160 ==> t.take(160).is_prefix_of(s) && s.skip(160)
            == "... ["@ + decimal(encode_utf8(t).len()) + " bytes]"@)),
{
    if let Data::Text(t) = value {
        law_elided(t, 160);
    }
}

/// What the server says names what it speaks of: the root that files are confined
/// to, and the text that is no job id.
pub proof fn law_server_names_what_it_means(root: Seq<char>, allow_exec: bool, raw: Seq<char>)
    ensures
        exists|a: Seq<char>, b: Seq<char>|
            instructions_text(root, allow_exec) == #[trigger] (a + root + b),
        exists|a: Seq<char>, b: Seq<char>| no_job_id(raw) == #[trigger] (a + raw + b),
        instructions_text(root, true) != instructions_text(root, false),
{
    let more = "; their paths are relative to that root and cannot escape it."@;
    let shell =
        " Long-running commands return a job_id; poll it with poll_job and end it with stop_job."@;
    let none = " Shell access is disabled on this instance."@;
    let last = if allow_exec {
        shell
    } else {
        none
    };
    assert(instructions_text(root, allow_exec) =~= "File tools are confined to "@ + root + (more
        + last));
    assert(no_job_id(raw) == "not a job id: "@ + raw
        + " (execute and start_command hand one back when they leave something running)"@);
    reveal_strlit(
        " Long-running commands return a job_id; poll it with poll_job and end it with stop_job.",
    );
    reveal_strlit(" Shell access is disabled on this instance.");
    let front = "File tools are confined to "@ + root + more;
    assert(instructions_text(root, true) == front + shell);
    assert(instructions_text(root, false) == front + none);
    assert((front + shell).len() != (front + none).len());
}

/// The tools that are offered, by name: the five that touch files always, and the
/// four that run commands where a shell is allowed.
pub proof fn law_tools_offered(allow_exec: bool, name: Seq<char>)
    ensures
        offered_names(allow_exec).contains(name) <==> name == "read_file"@ || name == "write_file"@
            || name == "edit_file"@ || name == "list_dir"@ || name == "search"@ || (allow_exec && (
        name == "execute"@ || name == "start_command"@ || name == "poll_job"@ || name
            == "stop_job"@)),
{
    let names = offered_names(allow_exec);
    assert(names[0] == "read_file"@);
    assert(names[1] == "write_file"@);
    assert(names[2] == "edit_file"@);
    assert(names[3] == "list_dir"@);
    assert(names[4] == "search"@);
    if allow_exec {
        assert(names[5] == "execute"@);
        assert(names[6] == "start_command"@);
        assert(names[7] == "poll_job"@);
        assert(names[8] == "stop_job"@);
    }
}

} // verus!
