use std::path::{Path, PathBuf};

use local_mcp::path::AbsPath;
use local_mcp::root::{Root, RootError};

fn plain(path: &AbsPath) -> PathBuf {
    PathBuf::from(String::from_utf8(path.to_bytes()).unwrap())
}

fn on_disk(path: &Path) -> Result<AbsPath, String> {
    match path.canonicalize() {
        Ok(found) => Ok(AbsPath::parse(found.to_str().unwrap().as_bytes()).unwrap()),
        Err(error) => Err(error.to_string()),
    }
}

fn present(path: &AbsPath) -> bool {
    plain(path).symlink_metadata().is_ok()
}

fn canonical(path: &AbsPath) -> Result<AbsPath, String> {
    on_disk(&plain(path))
}

fn resolve(root: &Root, input: &str) -> Result<PathBuf, RootError> {
    root.resolve(input, present, canonical).map(|p| plain(&p))
}

fn block_on<F: std::future::Future>(work: F) -> F::Output {
    tokio::runtime::Runtime::new().unwrap().block_on(work)
}

fn sandbox() -> (tempfile::TempDir, Root) {
    let dir = tempfile::tempdir().unwrap();
    block_on(tokio::fs::create_dir(dir.path().join("sub"))).unwrap();
    block_on(tokio::fs::write(dir.path().join("sub/file.txt"), b"hi")).unwrap();
    let root = Root::new(dir.path().to_str().unwrap(), on_disk(dir.path())).unwrap();
    (dir, root)
}

#[test]
fn resolves_paths_inside_the_root() {
    let (_dir, root) = sandbox();
    let resolved = resolve(&root, "sub/file.txt").unwrap();
    assert!(resolved.starts_with(plain(root.path())));
    assert!(resolved.ends_with("sub/file.txt"));
}

#[test]
fn accepts_the_root_itself() {
    let (_dir, root) = sandbox();
    assert_eq!(resolve(&root, ".").unwrap(), plain(root.path()));
}

#[test]
fn allows_paths_that_do_not_exist_yet() {
    let (_dir, root) = sandbox();
    let resolved = resolve(&root, "sub/new/deep/file.txt").unwrap();
    assert!(resolved.starts_with(plain(root.path())));
    assert_eq!(resolved, plain(root.path()).join("sub/new/deep/file.txt"));
}

#[test]
fn rejects_parent_traversal() {
    let (_dir, root) = sandbox();
    for input in ["..", "../..", "sub/../../etc/passwd", "sub/../.."] {
        assert!(
            matches!(resolve(&root, input), Err(RootError::Escape(_))),
            "should have rejected {input}"
        );
    }
}

#[test]
fn rejects_absolute_paths_outside_the_root() {
    let (_dir, root) = sandbox();
    assert!(matches!(resolve(&root, "/etc/passwd"), Err(RootError::Escape(_))));
}

#[test]
fn accepts_absolute_paths_inside_the_root() {
    let (_dir, root) = sandbox();
    let inside = plain(root.path()).join("sub/file.txt");
    let resolved = resolve(&root, inside.to_str().unwrap()).unwrap();
    assert_eq!(resolved, inside);
}

#[test]
fn rejects_symlinks_pointing_out_of_the_root() {
    let (dir, root) = sandbox();
    block_on(tokio::fs::symlink("/etc", dir.path().join("escape"))).unwrap();
    assert!(matches!(resolve(&root, "escape/passwd"), Err(RootError::Escape(_))));
    assert!(matches!(resolve(&root, "escape"), Err(RootError::Escape(_))));
}

#[test]
fn rejects_dangling_symlinks_pointing_out_of_the_root() {
    let (dir, root) = sandbox();
    block_on(tokio::fs::symlink("/nonexistent/target", dir.path().join("dangling"))).unwrap();
    // Must not be mistaken for a creatable new file: writing through it would
    // land at /nonexistent/target.
    assert!(resolve(&root, "dangling").is_err());
}

#[test]
fn allows_symlinks_that_stay_inside_the_root() {
    let (dir, root) = sandbox();
    block_on(tokio::fs::symlink(dir.path().join("sub"), dir.path().join("link"))).unwrap();
    let resolved = resolve(&root, "link/file.txt").unwrap();
    assert!(resolved.starts_with(plain(root.path())));
    assert_eq!(resolved, plain(root.path()).join("sub/file.txt"));
}

#[test]
fn a_dangling_link_is_said_to_be_unresolvable() {
    let (dir, root) = sandbox();
    block_on(tokio::fs::symlink("/nonexistent/target", dir.path().join("dangling"))).unwrap();
    let error = resolve(&root, "dangling").unwrap_err();
    let at = plain(root.path()).join("dangling");
    let cause = "No such file or directory (os error 2)";
    assert_eq!(error.message(), format!("cannot resolve {}: {cause}", at.display()));
    assert_eq!(error.message_chain(), format!("cannot resolve {}: {cause}: {cause}", at.display()));
}

#[test]
fn an_escape_names_the_path_as_it_was_given() {
    let (_dir, root) = sandbox();
    let error = resolve(&root, "sub/../../x").unwrap_err();
    assert_eq!(error.message(), "path escapes the sandbox root: sub/../../x");
    assert_eq!(error.message_chain(), "path escapes the sandbox root: sub/../../x");
}

#[test]
fn a_root_that_is_not_there_is_refused() {
    let error = Root::new("/no/such/root", on_disk(Path::new("/no/such/root"))).unwrap_err();
    assert_eq!(
        error.message(),
        "cannot resolve /no/such/root: No such file or directory (os error 2)"
    );
}

#[test]
fn a_path_is_written_relative_to_the_root() {
    let root = Root::new("/r", Ok(AbsPath::parse(b"/r/oot").unwrap())).unwrap();
    let shown = |p: &str| {
        String::from_utf8(root.relativize(&AbsPath::parse(p.as_bytes()).unwrap())).unwrap()
    };
    assert_eq!(shown("/r/oot/a/b"), "a/b");
    assert_eq!(shown("/r/oot"), "");
    assert_eq!(shown("/r/ootx"), "/r/ootx");
    assert_eq!(shown("/"), "/");
}

#[test]
fn a_shown_path_leads_back() {
    let (_dir, root) = sandbox();
    let there = root.resolve("sub/./file.txt", present, canonical).unwrap();
    let shown = String::from_utf8(root.relativize(&there)).unwrap();
    assert_eq!(shown, "sub/file.txt");
    assert_eq!(root.lexical(&shown).unwrap().to_bytes(), there.to_bytes());
}

#[test]
fn paths_are_split_at_slashes() {
    let parse = |p: &str| AbsPath::parse(p.as_bytes()).map(|p| plain(&p));
    assert_eq!(parse("/a//b/./c/"), Some(PathBuf::from("/a/b/c")));
    assert_eq!(parse("/a/b/../c"), Some(PathBuf::from("/a/c")));
    assert_eq!(parse("/"), Some(PathBuf::from("/")));
    assert_eq!(parse("/.."), None);
    assert_eq!(parse("a/b"), None);
    assert_eq!(parse(""), None);
}

#[test]
fn a_disk_without_its_top_refuses_everything() {
    let root = Root::new("/r", Ok(AbsPath::parse(b"/r").unwrap())).unwrap();
    let error = root
        .resolve("x", |_: &AbsPath| false, |_: &AbsPath| Err(String::new()))
        .unwrap_err();
    assert!(matches!(error, RootError::Escape(input) if input == "x"));
}

#[test]
fn a_written_path_reads_back() {
    for p in ["/", "/a", "/a/b c/\u{e9}", "/.../..x"] {
        let parsed = AbsPath::parse(p.as_bytes()).unwrap();
        assert_eq!(parsed.to_bytes(), p.as_bytes());
        assert_eq!(parsed.display(), p);
        let again = AbsPath::parse(&parsed.to_bytes()).unwrap();
        assert_eq!(again.to_bytes(), parsed.to_bytes());
    }
}
