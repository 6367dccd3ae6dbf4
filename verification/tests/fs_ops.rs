use std::io::ErrorKind;
use std::path::{Path, PathBuf};

use local_mcp::fs_ops::{
    cannot, check_directory, check_old_text, edit_file, edit_reply, list_depth, list_dir,
    path_refused, present, read_file, search, shown, start_path, write_file, Entry, FsError,
    IoError, IoKind, Search, Written,
};
use local_mcp::path::AbsPath;
use local_mcp::root::Root;

const MAX: usize = 65536;

fn plain(path: &AbsPath) -> PathBuf {
    PathBuf::from(String::from_utf8(path.to_bytes()).unwrap())
}

fn parse(path: &str) -> AbsPath {
    AbsPath::parse(path.as_bytes()).unwrap()
}

fn on_disk(path: &Path) -> Result<AbsPath, String> {
    match path.canonicalize() {
        Ok(found) => Ok(parse(found.to_str().unwrap())),
        Err(error) => Err(error.to_string()),
    }
}

fn there(path: &AbsPath) -> bool {
    plain(path).symlink_metadata().is_ok()
}

fn canonical(path: &AbsPath) -> Result<AbsPath, String> {
    on_disk(&plain(path))
}

fn block_on<F: std::future::Future>(work: F) -> F::Output {
    tokio::runtime::Runtime::new().unwrap().block_on(work)
}

fn trouble(error: std::io::Error) -> IoError {
    let kind = match error.kind() {
        ErrorKind::NotFound => IoKind::NotFound,
        ErrorKind::IsADirectory => IoKind::IsADirectory,
        ErrorKind::PermissionDenied => IoKind::PermissionDenied,
        _ => IoKind::Other,
    };
    IoError { kind, text: error.to_string() }
}

fn sandbox() -> (tempfile::TempDir, Root) {
    let dir = tempfile::tempdir().unwrap();
    block_on(tokio::fs::create_dir(dir.path().join("sub"))).unwrap();
    block_on(tokio::fs::write(dir.path().join("sub/file.txt"), b"hi\n")).unwrap();
    let root = Root::new(dir.path().to_str().unwrap(), on_disk(dir.path())).unwrap();
    (dir, root)
}

fn resolve(root: &Root, path: &str) -> AbsPath {
    root.resolve(path, there, canonical).unwrap()
}

fn read(root: &Root, path: &str) -> Result<String, FsError> {
    let resolved = resolve(root, path);
    let found = block_on(tokio::fs::read(plain(&resolved))).map_err(trouble);
    read_file(root, &resolved, found, None, None, MAX)
}

fn is_dir(path: &AbsPath) -> Result<bool, IoError> {
    match plain(path).metadata() {
        Ok(m) => Ok(m.is_dir()),
        Err(e) => Err(trouble(e)),
    }
}

fn message(error: FsError) -> String {
    match error {
        FsError::Refused(s) => s,
        FsError::MidCharacter => panic!("cut inside a character"),
    }
}

fn fake_root() -> Root {
    Root::new("/r", Ok(parse("/r"))).unwrap()
}

fn read_bytes(bytes: &[u8], offset: Option<u32>, limit: Option<u32>) -> Result<String, FsError> {
    read_file(&fake_root(), &parse("/r/f"), Ok(bytes.to_vec()), offset, limit, MAX)
}

#[test]
fn a_missing_file_says_where_paths_are_read_from() {
    let (_dir, root) = sandbox();
    let error = message(read(&root, "sub/nope.txt").unwrap_err());

    assert!(error.contains("no such file: sub/nope.txt"), "{error}");
    assert!(error.contains("sandbox root"), "{error}");
    assert!(error.contains("list_dir"), "{error}");
    assert!(!error.contains("os error"), "{error}");
}

#[test]
fn reading_a_directory_names_the_tool_that_lists_it() {
    let (_dir, root) = sandbox();
    let error = message(read(&root, "sub").unwrap_err());

    assert!(error.contains("sub is a directory"), "{error}");
    assert!(error.contains("list_dir"), "{error}");
}

#[test]
fn listing_somewhere_that_is_not_there_says_so() {
    let (_dir, root) = sandbox();
    let resolved = resolve(&root, "nope");
    let error = message(check_directory(&root, &resolved, is_dir(&resolved)).unwrap_err());

    assert!(error.contains("no such path: nope"), "{error}");
}

#[test]
fn listing_a_file_names_the_tool_that_reads_it() {
    let (_dir, root) = sandbox();
    let resolved = resolve(&root, "sub/file.txt");
    let error = message(check_directory(&root, &resolved, is_dir(&resolved)).unwrap_err());

    assert!(error.contains("is a file, not a directory"), "{error}");
    assert!(error.contains("read_file"), "{error}");
}

#[test]
fn searching_somewhere_that_is_not_there_says_so() {
    let (_dir, root) = sandbox();
    let resolved = resolve(&root, "nope");
    let error = message(present(&root, &resolved, is_dir(&resolved)).unwrap_err());

    assert!(error.contains("no such path: nope"), "{error}");
}

#[test]
fn the_root_itself_is_shown_as_a_path() {
    let (_dir, root) = sandbox();
    let error = message(read(&root, ".").unwrap_err());

    assert!(error.starts_with(". is a directory"), "{error}");
}

#[test]
fn a_file_is_read_with_line_numbers() {
    let (_dir, root) = sandbox();
    assert_eq!(read(&root, "sub/file.txt").unwrap(), "     1\thi\n");
    let text = b"one\r\ntwo\nthree";
    assert_eq!(
        read_bytes(text, None, None).unwrap(),
        "     1\tone\n     2\ttwo\n     3\tthree\n"
    );
    assert_eq!(read_bytes(text, Some(1), Some(1)).unwrap(), "     2\ttwo\n");
    assert_eq!(read_bytes(text, Some(2), Some(u32::MAX)).unwrap(), "     3\tthree\n");
    assert_eq!(read_bytes(text, None, Some(0)).unwrap(), "");
    assert_eq!(read_bytes(b"", None, None).unwrap(), "");
    assert_eq!(read_bytes(b"", Some(9), Some(9)).unwrap(), "");
    assert_eq!(read_bytes(b"\xffx", None, None).unwrap(), "     1\t\u{fffd}x\n");
    assert_eq!(
        message(read_bytes(text, Some(3), None).unwrap_err()),
        "offset 3 is past the end of f (3 lines)"
    );
}

#[test]
fn a_file_read_in_pieces_is_the_whole_file() {
    let text = b"a\nb\nc\nd\n";
    let whole = read_bytes(text, None, None).unwrap();
    let first = read_bytes(text, Some(0), Some(3)).unwrap();
    let rest = read_bytes(text, Some(3), None).unwrap();
    assert_eq!(first + &rest, whole);
}

#[test]
fn a_binary_file_is_not_shown() {
    assert_eq!(
        message(read_bytes(b"ab\0c", None, None).unwrap_err()),
        "f looks like a binary file (4 bytes)"
    );
    let mut late = vec![b'x'; 8192];
    late.push(0);
    assert!(read_bytes(&late, None, None).is_ok(), "only the start is looked at");
    late[8191] = 0;
    assert!(read_bytes(&late, None, None).is_err());
}

#[test]
fn an_answer_is_cut_at_its_limit() {
    let cut = |max: usize| {
        read_file(&fake_root(), &parse("/r/f"), Ok("\u{e9}\u{e9}".as_bytes().to_vec()), None, None, max)
    };
    assert_eq!(cut(9).unwrap(), "     1\t\u{e9}\n... [truncated]");
    assert!(matches!(cut(8), Err(FsError::MidCharacter)));
    assert_eq!(cut(12).unwrap(), "     1\t\u{e9}\u{e9}\n");
}

#[test]
fn trouble_is_said_in_the_callers_terms() {
    let say = |kind| {
        message(cannot("read", "a/b", &IoError { kind, text: "it broke".to_string() }))
    };
    assert_eq!(
        say(IoKind::NotFound),
        "no such file: a/b (paths are relative to the sandbox root; list_dir shows what is there)"
    );
    assert_eq!(say(IoKind::IsADirectory), "a/b is a directory, not a file; list_dir lists it");
    assert_eq!(say(IoKind::PermissionDenied), "not allowed to read a/b");
    assert_eq!(say(IoKind::Other), "cannot read a/b: it broke");
    let missing = |kind| {
        let found = Err(IoError { kind, text: "it broke".to_string() });
        message(present(&fake_root(), &parse("/r/a"), found).unwrap_err())
    };
    assert_eq!(
        missing(IoKind::NotFound),
        "no such path: a (paths are relative to the sandbox root; list_dir shows what is there)"
    );
    assert_eq!(missing(IoKind::PermissionDenied), "cannot open a: it broke");
    assert!(matches!(present(&fake_root(), &parse("/r/a"), Ok(true)), Ok(true)));
}

#[test]
fn a_refused_path_is_told_as_it_is() {
    let error = fake_root().lexical("../x").unwrap_err();
    assert_eq!(message(path_refused(&error)), "path escapes the sandbox root: ../x");
}

#[test]
fn a_written_file_is_answered_with_its_size() {
    let root = fake_root();
    let at = parse("/r/a/b");
    assert_eq!(
        write_file(&root, &at, "h\u{e9}", Written::Done).unwrap(),
        "wrote 3 bytes to a/b"
    );
    assert_eq!(
        message(write_file(&root, &at, "", Written::NoParent("full".to_string())).unwrap_err()),
        "cannot create a parent directory for a/b: full"
    );
    let denied = IoError { kind: IoKind::PermissionDenied, text: String::new() };
    assert_eq!(
        message(write_file(&root, &at, "", Written::Failed(denied)).unwrap_err()),
        "not allowed to write a/b"
    );
}

fn edit(current: &str, old: &str, new: &str) -> Result<String, FsError> {
    edit_file(&fake_root(), &parse("/r/f"), Ok(current.to_string()), old, new)
}

#[test]
fn an_edit_replaces_the_one_occurrence() {
    assert_eq!(edit("one two three", "two", "2").unwrap(), "one 2 three");
    assert_eq!(edit("two", "two", "").unwrap(), "");
    assert_eq!(edit("a\u{e9}b", "\u{e9}", "e").unwrap(), "aeb");
    assert_eq!(edit(&edit("one two three", "two", "2").unwrap(), "2", "two").unwrap(), "one two three");
}

#[test]
fn an_edit_that_is_not_unique_is_refused() {
    assert_eq!(
        message(edit("abc", "x", "y").unwrap_err()),
        "old_text does not appear in f"
    );
    assert_eq!(
        message(edit("x x x", "x", "y").unwrap_err()),
        "old_text appears 3 times in f; make it unique"
    );
    // Places that overlap are as ambiguous as others.
    assert_eq!(
        message(edit("aaa", "aa", "b").unwrap_err()),
        "old_text appears 2 times in f; make it unique"
    );
    assert_eq!(
        message(edit("aaaaa", "aa", "b").unwrap_err()),
        "old_text appears 4 times in f; make it unique"
    );
    assert_eq!(
        message(edit("abc", "", "y").unwrap_err()),
        "old_text must not be empty; use write_file to create a file"
    );
    assert!(check_old_text("").is_err());
    assert!(check_old_text("x").is_ok());
    let missing = Err(IoError { kind: IoKind::NotFound, text: String::new() });
    let error = edit_file(&fake_root(), &parse("/r/f"), missing, "x", "y").unwrap_err();
    assert!(message(error).starts_with("no such file: f"));
}

#[test]
fn an_edit_is_answered_once_it_is_written() {
    let at = parse("/r/f");
    assert_eq!(edit_reply(&fake_root(), &at, Ok(())).unwrap(), "edited f");
    let broke = IoError { kind: IoKind::Other, text: "full".to_string() };
    assert_eq!(
        message(edit_reply(&fake_root(), &at, Err(broke)).unwrap_err()),
        "cannot write f: full"
    );
}

#[test]
fn a_listing_shows_directories_and_sizes() {
    let dir = parse("/r/d");
    let entry = |p: &str, is_dir: bool, size: u64| Entry { path: parse(p), is_dir, size };
    let entries = vec![
        entry("/r/d", true, 0),
        entry("/r/d/sub", true, 7),
        entry("/r/d/sub/x.txt", false, 42),
        entry("/elsewhere", false, 1),
    ];
    assert_eq!(
        list_dir(&dir, &entries, MAX).unwrap(),
        "sub/\nsub/x.txt\t42\n/elsewhere\t1\n"
    );
    assert_eq!(list_dir(&dir, &vec![entry("/r/d", true, 0)], MAX).unwrap(), "(empty)");
    assert_eq!(list_dir(&dir, &entries, 4).unwrap(), "sub/\n... [truncated]");
    assert_eq!(list_dir(&dir, &vec![], 3).unwrap(), "(em\n... [truncated]");
    assert!(check_directory(&fake_root(), &dir, Ok(true)).is_ok());
}

#[test]
fn defaults_of_the_walks() {
    assert_eq!(start_path(&None), ".");
    assert_eq!(start_path(&Some("x".to_string())), "x");
    assert_eq!(list_depth(None), 1);
    assert_eq!(list_depth(Some(4)), 4);
    assert_eq!(shown(&fake_root(), &parse("/r")), ".");
    assert_eq!(shown(&fake_root(), &parse("/r/a/b")), "a/b");
}

fn files() -> Vec<(AbsPath, Vec<u8>)> {
    vec![
        (parse("/r/a.txt"), b"foo \nbar\nfoo2\n".to_vec()),
        (parse("/r/bin"), b"foo\0".to_vec()),
        (parse("/r/sub/b.txt"), b"x\nno foo here\t\n".to_vec()),
    ]
}

fn find(pattern: &str, max_results: Option<u32>) -> Result<String, FsError> {
    search(&fake_root(), pattern, &files(), max_results, MAX)
}

#[test]
fn a_search_reports_matching_lines() {
    assert_eq!(
        find("foo", None).unwrap(),
        "a.txt:1:foo\na.txt:3:foo2\nsub/b.txt:2:no foo here\n"
    );
    assert_eq!(find("^foo\\d$", None).unwrap(), "a.txt:3:foo2\n");
    assert_eq!(find("^ $", None).unwrap(), "(no matches)");
}

#[test]
fn valid_text_is_shown_as_it_is() {
    let text = "gr\u{fc}n \u{1f980}\n\u{20ac}5\n";
    assert_eq!(
        read_bytes(text.as_bytes(), None, None).unwrap(),
        "     1\tgr\u{fc}n \u{1f980}\n     2\t\u{20ac}5\n"
    );
    let files = vec![(parse("/r/\u{e9}.txt"), text.as_bytes().to_vec())];
    assert_eq!(
        search(&fake_root(), "\u{20ac}", &files, None, MAX).unwrap(),
        "\u{e9}.txt:2:\u{20ac}5\n"
    );
}

#[test]
fn a_search_stops_at_its_limit() {
    assert_eq!(
        find("foo", Some(2)).unwrap(),
        "a.txt:1:foo\na.txt:3:foo2\n... [stopped at 2 matches]\n"
    );
    assert_eq!(
        find("foo", Some(1)).unwrap(),
        "a.txt:1:foo\n... [stopped at 1 matches]\n"
    );
    assert!(find("foo", Some(3)).unwrap().ends_with("... [stopped at 3 matches]\n"));
    let many = vec![(parse("/r/many"), "x\n".repeat(300).into_bytes())];
    let report = search(&fake_root(), "x", &many, None, MAX).unwrap();
    assert_eq!(report.lines().count(), 201);
    assert!(report.ends_with("many:200:x\n... [stopped at 200 matches]\n"));
}

#[test]
fn a_search_can_be_fed_file_by_file() {
    let root = fake_root();
    let mut search = Search::new("foo", Some(2)).unwrap();
    let files = files();
    assert!(!search.is_over());
    search.file(&root, &files[0].0, &files[0].1);
    assert!(search.is_over());
    search.file(&root, &files[2].0, &files[2].1);
    assert_eq!(
        search.finish(MAX).unwrap(),
        "a.txt:1:foo\na.txt:3:foo2\n... [stopped at 2 matches]\n"
    );
}

#[test]
fn a_pattern_that_does_not_compile_is_refused() {
    let error = message(find("(", None).unwrap_err());
    let cause = regex::Regex::new("(").unwrap_err().to_string();
    assert_eq!(error, format!("pattern is not a valid regular expression: {cause}"));
}

#[test]
fn a_search_for_no_lines_reports_none() {
    assert_eq!(find("foo", Some(0)).unwrap(), "... [stopped at 0 matches]\n");
    assert_eq!(find("absent", Some(0)).unwrap(), "(no matches)");
    let (_dir, root) = sandbox();
    let at = resolve(&root, "sub/file.txt");
    let files = vec![(at, b"hi\n".to_vec())];
    let report = search(&root, "hi", &files, Some(0), MAX).unwrap();
    assert!(!report.contains("sub/file.txt:1:hi"), "{report}");
}

#[test]
fn a_search_begins_with_what_compiling_came_to() {
    let refused = match Search::begun(Err("too big".to_string()), None) {
        Err(error) => message(error),
        Ok(_) => panic!("a pattern that was not compiled"),
    };
    assert_eq!(refused, "pattern is not a valid regular expression: too big");
    let compiled = regex::Regex::new("b.r").map_err(|e| e.to_string());
    let search = Search::begun(compiled, Some(5)).unwrap_or_else(|_| panic!("compiled"));
    assert_eq!(search.over(&fake_root(), &files(), MAX).unwrap(), "a.txt:2:bar\n");
}

#[test]
fn an_ambiguous_edit_leaves_the_file_alone() {
    let (_dir, root) = sandbox();
    let at = resolve(&root, "f.txt");
    block_on(tokio::fs::write(plain(&at), b"aaa")).unwrap();
    let found = block_on(tokio::fs::read_to_string(plain(&at))).map_err(trouble);
    assert!(edit_file(&root, &at, found, "aa", "b").is_err());
    assert_eq!(block_on(tokio::fs::read(plain(&at))).unwrap(), b"aaa");
}

#[test]
fn a_shown_path_resolves_to_the_path_it_stands_for() {
    let (dir, root) = sandbox();
    block_on(tokio::fs::symlink(dir.path().join("sub"), dir.path().join("link"))).unwrap();
    for input in [".", "sub", "sub/file.txt", "link/file.txt", "link/new/\u{e9}.txt", "sub/.."] {
        let resolved = resolve(&root, input);
        let again = resolve(&root, &shown(&root, &resolved));
        assert_eq!(again.to_bytes(), resolved.to_bytes(), "{input}");
        let written = resolve(&root, &resolved.display());
        assert_eq!(written.to_bytes(), resolved.to_bytes(), "{input}");
    }
}
