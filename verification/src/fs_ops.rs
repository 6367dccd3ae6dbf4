//! The file tools: what they answer, once the disk has been asked.
//!
//! Every tool resolves its path first, with [`Root::resolve`]; the functions
//! here take the resolved path together with what the disk said of it.
use regex::Regex;
use vstd::prelude::*;
use vstd::utf8::{decode_utf8, encode_utf8, valid_utf8};

use crate::path::{
    all_names, components, dot, joined, lemma_valid_tail, walk, written, AbsPath,
};
use crate::root::{
    found_part, law_resolved_within_root, law_shown_path_leads_back, lemma_resolves_again,
    lexical_path, resolved, within, Refused, Root, RootError,
};
use crate::text::{
    byte_len, can_cut, chars_of, count_matches, count_text, decimal, decimal_text, find_text,
    from_utf8_lossy, join2, law_stands, lemma_no_place, lemma_one_place, lines, pad_left, padded, split_lines, stands, text_of,
    trim_end, trim_right, truncate, truncated, utf8_lossy, views,
};

verus! {

/// How many bytes are looked at for a NUL, the usual sign that a file is not
/// text.
pub const BINARY_SNIFF: usize = 8192;

/// What kind of trouble the disk reports.
#[derive(Clone, Copy, Debug, PartialEq, Eq, Structural)]
pub enum IoKind {
    NotFound,
    IsADirectory,
    PermissionDenied,
    Other,
}

/// Trouble that the disk reports, with its description.
#[derive(Debug)]
pub struct IoError {
    pub kind: IoKind,
    pub text: String,
}

/// What an [`IoError`] holds.
pub struct IoTrouble {
    pub kind: IoKind,
    pub text: Seq<char>,
}

impl View for IoError {
    type V = IoTrouble;

    open spec fn view(&self) -> IoTrouble {
        IoTrouble { kind: self.kind, text: self.text@ }
    }
}

/// Why a tool did not do what it was asked.
#[derive(Debug)]
pub enum FsError {
    /// What the caller is told.
    Refused(String),
    /// The answer would have to be cut inside a character.
    MidCharacter,
}

/// What an [`FsError`] holds.
pub enum Complaint {
    Refused(Seq<char>),
    MidCharacter,
}

impl View for FsError {
    type V = Complaint;

    open spec fn view(&self) -> Complaint {
        match self {
            FsError::Refused(s) => Complaint::Refused(s@),
            FsError::MidCharacter => Complaint::MidCharacter,
        }
    }
}

/// What a tool came to.
pub open spec fn told(out: Result<String, FsError>) -> Result<Seq<char>, Complaint> {
    match out {
        Ok(s) => Ok(s@),
        Err(e) => Err(e@),
    }
}

/// What is told of a path that was refused.
pub fn path_refused(e: &RootError) -> (out: FsError)
    ensures
        out@ == Complaint::Refused(e@.chain()),
{
    FsError::Refused(e.message_chain())
}

/// A resolved path as a caller would write it: relative to the root, and `.` for
/// the root itself.
pub open spec fn shown_path(root: Seq<Seq<u8>>, path: Seq<Seq<u8>>) -> Seq<char> {
    named(utf8_lossy(Root::relative(root, path)))
}

/// A relative path as it is shown.
pub open spec fn named(relative: Seq<char>) -> Seq<char> {
    if relative.len() == 0 {
        "."@
    } else {
        relative
    }
}

/// Writes a relative path as it is shown.
pub fn shown_name(relative: String) -> (s: String)
    ensures
        s@ == named(relative@),
{
    if relative.as_str().is_empty() {
        ".".to_owned()
    } else {
        relative
    }
}

/// Writes a resolved path as a caller would.
pub fn shown(root: &Root, path: &AbsPath) -> (s: String)
    ensures
        s@ == shown_path(root@, path@),
{
    let bytes = root.relativize(path);
    shown_name(from_utf8_lossy(bytes.as_slice()))
}

/// Trouble with a file, said in terms of what the caller can do about it.
pub open spec fn cannot_text(verb: Seq<char>, shown: Seq<char>, error: IoTrouble) -> Seq<char> {
    match error.kind {
        IoKind::NotFound => "no such file: "@ + shown
            + " (paths are relative to the sandbox root; list_dir shows what is there)"@,
        IoKind::IsADirectory => shown + " is a directory, not a file; list_dir lists it"@,
        IoKind::PermissionDenied => "not allowed to "@ + verb + " "@ + shown,
        IoKind::Other => "cannot "@ + verb + " "@ + shown + ": "@ + error.text,
    }
}

/// Says what is the trouble with a file.
pub fn cannot(verb: &str, shown: &str, error: &IoError) -> (out: FsError)
    ensures
        out@ == Complaint::Refused(cannot_text(verb@, shown@, error@)),
        error.kind == IoKind::NotFound ==> out@ == Complaint::Refused(
            "no such file: "@ + shown@
                + " (paths are relative to the sandbox root; list_dir shows what is there)"@,
        ),
        error.kind == IoKind::IsADirectory ==> out@ == Complaint::Refused(
            shown@ + " is a directory, not a file; list_dir lists it"@,
        ),
        error.kind == IoKind::PermissionDenied ==> out@ == Complaint::Refused(
            "not allowed to "@ + verb@ + " "@ + shown@,
        ),
        error.kind == IoKind::Other ==> out@ == Complaint::Refused(
            "cannot "@ + verb@ + " "@ + shown@ + ": "@ + error.text@,
        ),
{
    let s = match error.kind {
        IoKind::NotFound => {
            let mut s = join2("no such file: ", shown);
            s.append(" (paths are relative to the sandbox root; list_dir shows what is there)");
            s
        },
        IoKind::IsADirectory => join2(shown, " is a directory, not a file; list_dir lists it"),
        IoKind::PermissionDenied => {
            let mut s = join2("not allowed to ", verb);
            s.append(" ");
            s.append(shown);
            s
        },
        IoKind::Other => {
            let mut s = join2("cannot ", verb);
            s.append(" ");
            s.append(shown);
            s.append(": ");
            s.append(error.text.as_str());
            s
        },
    };
    FsError::Refused(s)
}

/// What is told where there is nothing at a path, or it cannot be looked at.
pub open spec fn absent_text(shown: Seq<char>, error: IoTrouble) -> Seq<char> {
    match error.kind {
        IoKind::NotFound => "no such path: "@ + shown
            + " (paths are relative to the sandbox root; list_dir shows what is there)"@,
        _ => "cannot open "@ + shown + ": "@ + error.text,
    }
}

/// Requires that something is at a path, and tells whether it is a directory. A
/// walk over a path that is not there would merely come out empty.
pub fn present(root: &Root, resolved: &AbsPath, found: Result<bool, IoError>) -> (out: Result<
    bool,
    FsError,
>)
    ensures
        match (found, out) {
            (Ok(a), Ok(b)) => a == b,
            (Err(e), Err(c)) => c@ == Complaint::Refused(
                absent_text(shown_path(root@, resolved@), e@),
            ),
            _ => false,
        },
{
    match found {
        Ok(is_dir) => Ok(is_dir),
        Err(e) => {
            let shown = shown(root, resolved);
            let s = match e.kind {
                IoKind::NotFound => {
                    let mut s = join2("no such path: ", shown.as_str());
                    s.append(
                        " (paths are relative to the sandbox root; list_dir shows what is there)",
                    );
                    s
                },
                _ => {
                    let mut s = join2("cannot open ", shown.as_str());
                    s.append(": ");
                    s.append(e.text.as_str());
                    s
                },
            };
            Err(FsError::Refused(s))
        },
    }
}

/// An answer cut to its limit.
pub open spec fn limited(s: Seq<char>, max_output: nat) -> Result<Seq<char>, Complaint> {
    if can_cut(s, max_output) {
        Ok(truncated(s, max_output))
    } else {
        Err(Complaint::MidCharacter)
    }
}

/// Cuts an answer to its limit, where that does not fall inside a character.
pub fn limit_output(s: String, max_output: usize) -> (out: Result<String, FsError>)
    ensures
        told(out) == limited(s@, max_output as nat),
{
    let fits = {
        let bytes = s.as_str().as_bytes();
        bytes.len() <= max_output || s.as_str().is_char_boundary(max_output)
    };
    if fits {
        Ok(truncate(s, max_output))
    } else {
        Err(FsError::MidCharacter)
    }
}

/// Whether a file looks like something other than text.
pub open spec fn looks_binary(bytes: Seq<u8>) -> bool {
    exists|i: int| 0 <= i < bytes.len() && i < BINARY_SNIFF && #[trigger] bytes[i] == 0
}

/// Whether a file looks like something other than text.
pub fn is_binary(bytes: &Vec<u8>) -> (b: bool)
    ensures
        b == looks_binary(bytes@),
{
    let mut i: usize = 0;
    while i < bytes.len() && i < BINARY_SNIFF
        invariant
            0 <= i <= bytes@.len(),
            i <= BINARY_SNIFF,
            forall|j: int| 0 <= j < i ==> bytes@[j] != 0,
        decreases bytes@.len() - i,
    {
        if bytes[i] == 0 {
            return true;
        }
        i = i + 1;
    }
    false
}

/// The lines from `from` up to, not counting, `to`, each with its number in
/// front, counted from one.
pub open spec fn numbered(all: Seq<Seq<char>>, from: nat, to: nat) -> Seq<char>
    decreases to,
{
    if to <= from {
        seq![]
    } else {
        numbered(all, from, (to - 1) as nat) + (padded(decimal(to), 6) + "\t"@ + all[to - 1] + "\n"@)
    }
}

/// The line that a read stops before.
pub open spec fn read_end(start: nat, limit: Option<u32>, count: nat) -> nat {
    match limit {
        Some(l) => if start + l < count {
            (start + l) as nat
        } else {
            count
        },
        None => count,
    }
}

/// What is shown of a text: from the line `offset` on, as many as `limit`.
pub open spec fn excerpt(
    shown: Seq<char>,
    text: Seq<char>,
    offset: Option<u32>,
    limit: Option<u32>,
    max_output: nat,
) -> Result<Seq<char>, Complaint> {
    let all = lines(text);
    let start = match offset {
        Some(o) => o as nat,
        None => 0,
    };
    if start >= all.len() && all.len() > 0 {
        Err(
            Complaint::Refused(
                "offset "@ + decimal(start) + " is past the end of "@ + shown + " ("@ + decimal(
                    all.len(),
                ) + " lines)"@,
            ),
        )
    } else {
        limited(numbered(all, start, read_end(start, limit, all.len())), max_output)
    }
}

/// Shows lines of a text, with their numbers.
pub fn show_lines(
    shown: &str,
    text: &str,
    offset: Option<u32>,
    limit: Option<u32>,
    max_output: usize,
) -> (out: Result<String, FsError>)
    ensures
        told(out) == excerpt(shown@, text@, offset, limit, max_output as nat),
{
    let all = split_lines(text);
    let count: usize = all.len();
    let ghost texts = lines(text@);
    assert(texts.len() == count);
    let start: u64 = match offset {
        Some(o) => o as u64,
        None => 0,
    };
    if start >= count as u64 && count > 0 {
        let mut s = join2("offset ", decimal_text(start).as_str());
        s.append(" is past the end of ");
        s.append(shown);
        s.append(" (");
        s.append(decimal_text(count as u64).as_str());
        s.append(" lines)");
        return Err(FsError::Refused(s));
    }
    let end: usize = match limit {
        Some(l) => if (start + l as u64) < count as u64 {
            (start + l as u64) as usize
        } else {
            count
        },
        None => count,
    };
    let mut s = String::new();
    if start < count as u64 {
        let mut i: usize = start as usize;
        assert(numbered(texts, start as nat, i as nat) =~= seq![]);
        while i < end
            invariant
                start <= i,
                start <= end ==> i <= end,
                end <= count,
                count == all@.len(),
                views(all@) == texts,
                s@ == numbered(texts, start as nat, i as nat),
            decreases end - i,
        {
            let number = decimal_text(i as u64 + 1);
            let front = pad_left(number.as_str(), 6);
            let mut line = join2(front.as_str(), "\t");
            line.append(all[i].as_str());
            line.append("\n");
            s.append(line.as_str());
            assert(texts[i as int] == all@[i as int]@);
            i = i + 1;
        }
    } else {
        assert(numbered(texts, start as nat, end as nat) =~= seq![]);
    }
    limit_output(s, max_output)
}

/// What is answered to a request to read a file.
pub open spec fn read_text(
    shown: Seq<char>,
    found: Result<Seq<u8>, IoTrouble>,
    offset: Option<u32>,
    limit: Option<u32>,
    max_output: nat,
) -> Result<Seq<char>, Complaint> {
    match found {
        Err(e) => Err(Complaint::Refused(cannot_text("read"@, shown, e))),
        Ok(bytes) => if looks_binary(bytes) {
            Err(
                Complaint::Refused(
                    shown + " looks like a binary file ("@ + decimal(bytes.len()) + " bytes)"@,
                ),
            )
        } else {
            excerpt(shown, utf8_lossy(bytes), offset, limit, max_output)
        },
    }
}

/// What the disk said of the contents of a file.
pub open spec fn contents(found: Result<Vec<u8>, IoError>) -> Result<Seq<u8>, IoTrouble> {
    match found {
        Ok(b) => Ok(b@),
        Err(e) => Err(e@),
    }
}

/// Answers a request to read a file.
pub fn read_file(
    root: &Root,
    resolved: &AbsPath,
    found: Result<Vec<u8>, IoError>,
    offset: Option<u32>,
    limit: Option<u32>,
    max_output: usize,
) -> (out: Result<String, FsError>)
    ensures
        told(out) == read_text(
            shown_path(root@, resolved@),
            contents(found),
            offset,
            limit,
            max_output as nat,
        ),
        found matches Err(e) ==> told(out) == Err::<Seq<char>, Complaint>(
            Complaint::Refused(cannot_text("read"@, shown_path(root@, resolved@), e@)),
        ),
        found matches Ok(b) ==> out is Ok ==> ({
            let all = lines(utf8_lossy(b@));
            let start: nat = if offset is Some {
                offset->0 as nat
            } else {
                0
            };
            let left: nat = if start < all.len() {
                (all.len() - start) as nat
            } else {
                0
            };
            let n: nat = if limit is Some && limit->0 < left {
                limit->0 as nat
            } else {
                left
            };
            (start < all.len() || all.len() == 0) && told(out) == limited(
                Seq::new(
                    n,
                    |j: int|
                        padded(decimal((start + j + 1) as nat), 6) + "\t"@ + all[start + j] + "\n"@,
                ).flatten(),
                max_output as nat,
            )
        }),
{
    proof {
        if let Ok(bytes) = contents(found) {
            law_read_shows_lines(
                shown_path(root@, resolved@),
                bytes,
                offset,
                limit,
                max_output as nat,
            );
        }
    }
    let shown = shown(root, resolved);
    let bytes = match found {
        Ok(b) => b,
        Err(e) => {
            return Err(cannot("read", shown.as_str(), &e));
        },
    };
    if is_binary(&bytes) {
        let mut s = join2(shown.as_str(), " looks like a binary file (");
        s.append(decimal_text(bytes.len() as u64).as_str());
        s.append(" bytes)");
        return Err(FsError::Refused(s));
    }
    let text = from_utf8_lossy(bytes.as_slice());
    show_lines(shown.as_str(), text.as_str(), offset, limit, max_output)
}

/// How writing a file went.
#[derive(Debug)]
pub enum Written {
    /// The directory that it should stand in could not be created.
    NoParent(String),
    /// The file could not be written.
    Failed(IoError),
    Done,
}

/// What a [`Written`] holds.
pub enum WriteOutcome {
    NoParent(Seq<char>),
    Failed(IoTrouble),
    Done,
}

impl View for Written {
    type V = WriteOutcome;

    open spec fn view(&self) -> WriteOutcome {
        match self {
            Written::NoParent(why) => WriteOutcome::NoParent(why@),
            Written::Failed(e) => WriteOutcome::Failed(e@),
            Written::Done => WriteOutcome::Done,
        }
    }
}

/// What is answered to a request to write a file.
pub open spec fn write_text(shown: Seq<char>, content: Seq<char>, written: WriteOutcome) -> Result<
    Seq<char>,
    Complaint,
> {
    match written {
        WriteOutcome::NoParent(why) => Err(
            Complaint::Refused("cannot create a parent directory for "@ + shown + ": "@ + why),
        ),
        WriteOutcome::Failed(e) => Err(Complaint::Refused(cannot_text("write"@, shown, e))),
        WriteOutcome::Done => Ok(
            "wrote "@ + decimal(byte_len(content)) + " bytes to "@ + shown,
        ),
    }
}

/// Answers a request to write a file, once it was tried.
pub fn write_file(root: &Root, resolved: &AbsPath, content: &str, written: Written) -> (out: Result<
    String,
    FsError,
>)
    ensures
        told(out) == write_text(shown_path(root@, resolved@), content@, written@),
{
    let shown = shown(root, resolved);
    match written {
        Written::NoParent(why) => {
            let mut s = join2("cannot create a parent directory for ", shown.as_str());
            s.append(": ");
            s.append(why.as_str());
            Err(FsError::Refused(s))
        },
        Written::Failed(e) => Err(cannot("write", shown.as_str(), &e)),
        Written::Done => {
            let size = decimal_text(content.as_bytes().len() as u64);
            let mut s = join2("wrote ", size.as_str());
            s.append(" bytes to ");
            s.append(shown.as_str());
            Ok(s)
        },
    }
}

/// What is told of an edit that names no text.
pub open spec fn empty_old_text() -> Complaint {
    Complaint::Refused("old_text must not be empty; use write_file to create a file"@)
}

/// Requires that an edit names a text to replace.
pub fn check_old_text(old_text: &str) -> (out: Result<(), FsError>)
    ensures
        match out {
            Ok(_) => old_text@.len() > 0,
            Err(e) => old_text@.len() == 0 && e@ == empty_old_text(),
        },
{
    if old_text.is_empty() {
        return Err(
            FsError::Refused(
                "old_text must not be empty; use write_file to create a file".to_owned(),
            ),
        );
    }
    Ok(())
}

/// A text with the `old_text` that stands at a place replaced.
pub open spec fn replaced_at(
    current: Seq<char>,
    old_text: Seq<char>,
    new_text: Seq<char>,
    k: int,
) -> Seq<char> {
    current.take(k) + new_text + current.skip(k + old_text.len())
}

/// A text after an edit: the `old_text` at the one place where it stands is
/// replaced. An edit whose text is missing, or stands at several places, be it
/// that they overlap, is refused.
pub open spec fn edited_text(
    shown: Seq<char>,
    current: Seq<char>,
    old_text: Seq<char>,
    new_text: Seq<char>,
) -> Result<Seq<char>, Complaint> {
    let n = count_matches(current, old_text);
    if old_text.len() == 0 {
        Err(empty_old_text())
    } else if n == 0 {
        Err(Complaint::Refused("old_text does not appear in "@ + shown))
    } else if n > 1 {
        Err(
            Complaint::Refused(
                "old_text appears "@ + decimal(n) + " times in "@ + shown + "; make it unique"@,
            ),
        )
    } else {
        Ok(replaced_at(current, old_text, new_text, choose|k: int| stands(current, old_text, k)))
    }
}

/// Edits a text.
pub fn edit_text(shown: &str, current: &str, old_text: &str, new_text: &str) -> (out: Result<
    String,
    FsError,
>)
    ensures
        told(out) == edited_text(shown@, current@, old_text@, new_text@),
        out is Ok <==> old_text@.len() > 0 && exists|k: int| #[trigger]
            stands(current@, old_text@, k) && forall|j: int| #[trigger]
                stands(current@, old_text@, j) ==> j == k,
{
    proof {
        lemma_one_place(current@, old_text@);
    }
    match check_old_text(old_text) {
        Err(e) => {
            return Err(e);
        },
        Ok(_) => {},
    }
    let chars = chars_of(current);
    let needle = chars_of(old_text);
    let n: usize = count_text(&chars, &needle);
    if n == 0 {
        return Err(FsError::Refused(join2("old_text does not appear in ", shown)));
    }
    if n > 1 {
        let mut s = join2("old_text appears ", decimal_text(n as u64).as_str());
        s.append(" times in ");
        s.append(shown);
        s.append("; make it unique");
        return Err(FsError::Refused(s));
    }
    match find_text(&chars, &needle) {
        None => Err(FsError::Refused(join2("old_text does not appear in ", shown))),
        Some(at) => {
            let mut s = text_of(&chars, 0, at);
            s.append(new_text);
            let size: usize = chars.len();
            let rest = text_of(&chars, at + needle.len(), size);
            s.append(rest.as_str());
            proof {
                assert(stands(current@, old_text@, at as int));
                assert(at == choose|k: int| stands(current@, old_text@, k));
                assert(chars@.subrange(0, at as int) =~= current@.take(at as int));
                assert(rest@ =~= current@.skip(at + old_text@.len()));
            }
            Ok(s)
        },
    }
}

/// What the disk said of the text of a file.
pub open spec fn text_contents(found: Result<String, IoError>) -> Result<Seq<char>, IoTrouble> {
    match found {
        Ok(s) => Ok(s@),
        Err(e) => Err(e@),
    }
}

/// The text that an edit of a file writes back.
pub open spec fn edit_of(
    shown: Seq<char>,
    found: Result<Seq<char>, IoTrouble>,
    old_text: Seq<char>,
    new_text: Seq<char>,
) -> Result<Seq<char>, Complaint> {
    if old_text.len() == 0 {
        Err(empty_old_text())
    } else {
        match found {
            Err(e) => Err(Complaint::Refused(cannot_text("read"@, shown, e))),
            Ok(current) => edited_text(shown, current, old_text, new_text),
        }
    }
}

/// Computes what an edit of a file writes back.
pub fn edit_file(
    root: &Root,
    resolved: &AbsPath,
    found: Result<String, IoError>,
    old_text: &str,
    new_text: &str,
) -> (out: Result<String, FsError>)
    ensures
        told(out) == edit_of(
            shown_path(root@, resolved@),
            text_contents(found),
            old_text@,
            new_text@,
        ),
        out matches Ok(t) ==> (found matches Ok(current) && exists|
            before: Seq<char>,
            after: Seq<char>,
        |
            current@ == #[trigger] (before + old_text@ + after) && t@ == before + new_text@
                + after),
        out is Ok <==> (found matches Ok(current) && old_text@.len() > 0 && exists|
            before: Seq<char>,
            after: Seq<char>,
        |
            current@ == #[trigger] (before + old_text@ + after) && forall|
                b: Seq<char>,
                a: Seq<char>,
            | current@ == #[trigger] (b + old_text@ + a) ==> b == before),
{
    proof {
        law_edit_replaces_in_place(
            shown_path(root@, resolved@),
            text_contents(found),
            old_text@,
            new_text@,
        );
    }
    match check_old_text(old_text) {
        Err(e) => {
            return Err(e);
        },
        Ok(_) => {},
    }
    let shown = shown(root, resolved);
    match found {
        Err(e) => Err(cannot("read", shown.as_str(), &e)),
        Ok(current) => edit_text(shown.as_str(), current.as_str(), old_text, new_text),
    }
}

/// Answers a request to edit a file, once the text was written back.
pub fn edit_reply(root: &Root, resolved: &AbsPath, written: Result<(), IoError>) -> (out: Result<
    String,
    FsError,
>)
    ensures
        told(out) == (match written {
            Ok(_) => Ok("edited "@ + shown_path(root@, resolved@)),
            Err(e) => Err(
                Complaint::Refused(cannot_text("write"@, shown_path(root@, resolved@), e@)),
            ),
        }),
{
    let shown = shown(root, resolved);
    match written {
        Ok(_) => Ok(join2("edited ", shown.as_str())),
        Err(e) => Err(cannot("write", shown.as_str(), &e)),
    }
}

/// The path that a walk starts from: the root where none is given.
pub fn start_path(path: &Option<String>) -> (s: String)
    ensures
        s@ == (match path {
            Some(p) => p@,
            None => "."@,
        }),
{
    match path {
        Some(p) => p.as_str().to_owned(),
        None => ".".to_owned(),
    }
}

/// How deep a listing descends: one level where nothing is said.
pub fn list_depth(depth: Option<u32>) -> (n: usize)
    ensures
        n == (match depth {
            Some(d) => d as nat,
            None => 1,
        }),
{
    match depth {
        Some(d) => d as usize,
        None => 1,
    }
}

/// What is told of a listing of something that is no directory.
pub open spec fn not_a_directory(shown: Seq<char>) -> Complaint {
    Complaint::Refused(shown + " is a file, not a directory; read_file reads it"@)
}

/// Requires that a path is a directory.
pub fn check_directory(root: &Root, resolved: &AbsPath, found: Result<bool, IoError>) -> (out: Result<
    (),
    FsError,
>)
    ensures
        match (found, out) {
            (Ok(is_dir), Ok(_)) => is_dir,
            (Ok(is_dir), Err(c)) => !is_dir && c@ == not_a_directory(
                shown_path(root@, resolved@),
            ),
            (Err(e), Err(c)) => c@ == Complaint::Refused(
                absent_text(shown_path(root@, resolved@), e@),
            ),
            (Err(_), Ok(_)) => false,
        },
{
    match present(root, resolved, found) {
        Err(c) => Err(c),
        Ok(is_dir) => {
            if is_dir {
                Ok(())
            } else {
                let shown = shown(root, resolved);
                Err(
                    FsError::Refused(
                        join2(shown.as_str(), " is a file, not a directory; read_file reads it"),
                    ),
                )
            }
        },
    }
}

/// Something that a walk came across.
#[derive(Debug)]
pub struct Entry {
    pub path: AbsPath,
    pub is_dir: bool,
    pub size: u64,
}

/// What an [`Entry`] holds.
pub struct Found {
    pub path: Seq<Seq<u8>>,
    pub is_dir: bool,
    pub size: u64,
}

impl View for Entry {
    type V = Found;

    open spec fn view(&self) -> Found {
        Found { path: self.path@, is_dir: self.is_dir, size: self.size }
    }
}

/// What a list of entries holds.
pub open spec fn found_in(v: Seq<Entry>) -> Seq<Found> {
    v.map_values(|e: Entry| e@)
}

/// The line of an entry in a listing: a directory with a slash behind it, a file
/// with its size.
pub open spec fn entry_line(name: Seq<char>, is_dir: bool, size: u64) -> Seq<char> {
    if is_dir {
        name + "/\n"@
    } else {
        name + "\t"@ + decimal(size as nat) + "\n"@
    }
}

/// Writes the line of an entry in a listing.
pub fn list_line(name: &str, is_dir: bool, size: u64) -> (s: String)
    ensures
        s@ == entry_line(name@, is_dir, size),
{
    if is_dir {
        join2(name, "/\n")
    } else {
        let mut s = join2(name, "\t");
        s.append(decimal_text(size).as_str());
        s.append("\n");
        s
    }
}

/// The lines of a listing, with paths relative to the directory that is listed.
/// The directory itself is left out.
pub open spec fn listing(dir: Seq<Seq<u8>>, entries: Seq<Found>) -> Seq<char>
    decreases entries.len(),
{
    if entries.len() == 0 {
        seq![]
    } else {
        let e = entries.last();
        let before = listing(dir, entries.drop_last());
        if e.path == dir {
            before
        } else {
            before + entry_line(utf8_lossy(Root::relative(dir, e.path)), e.is_dir, e.size)
        }
    }
}

/// A listing, or what stands for an empty one.
pub open spec fn list_text(dir: Seq<Seq<u8>>, entries: Seq<Found>) -> Seq<char> {
    let out = listing(dir, entries);
    if out.len() == 0 {
        "(empty)"@
    } else {
        out
    }
}

/// Answers a request to list a directory, once it was walked.
pub fn list_dir(resolved: &AbsPath, entries: &Vec<Entry>, max_output: usize) -> (out: Result<
    String,
    FsError,
>)
    ensures
        told(out) == limited(list_text(resolved@, found_in(entries@)), max_output as nat),
        ({
            let below = entries@.filter(|e: Entry| e.path@ != resolved@);
            let each = below.map_values(
                |e: Entry|
                    utf8_lossy(
                        if resolved@.is_prefix_of(e.path@) {
                            joined(e.path@.skip(resolved@.len() as int))
                        } else {
                            written(e.path@)
                        },
                    ) + (if e.is_dir {
                        "/\n"@
                    } else {
                        "\t"@ + decimal(e.size as nat) + "\n"@
                    }),
            );
            told(out) == limited(
                (if below.len() == 0 {
                    "(empty)"@
                } else {
                    each.flatten()
                }),
                max_output as nat,
            )
        }),
{

    let mut s = String::new();
    let ghost all = found_in(entries@);
    let mut i: usize = 0;
    assert(listing(resolved@, all.take(0)) =~= seq![]);
    while i < entries.len()
        invariant
            0 <= i <= entries@.len(),
            all == found_in(entries@),
            s@ == listing(resolved@, all.take(i as int)),
        decreases entries@.len() - i,
    {
        proof {
            assert(all.take(i as int + 1).drop_last() =~= all.take(i as int));
            assert(all.take(i as int + 1).last() == entries@[i as int]@);
        }
        let entry = &entries[i];
        let below = entry.path.starts_with(resolved);
        let same = below && entry.path.len() == resolved.len();
        proof {
            if same {
                assert(entry.path@ =~= resolved@) by {
                    assert(entry.path@.subrange(0, resolved@.len() as int) =~= entry.path@);
                }
            }
            if entry.path@ == resolved@ {
                assert(entry.path@.subrange(0, resolved@.len() as int) =~= entry.path@);
            }
        }
        if !same {
            let relative = if below {
                entry.path.join_from(resolved.len())
            } else {
                entry.path.to_bytes()
            };
            let name = from_utf8_lossy(relative.as_slice());
            s.append(list_line(name.as_str(), entry.is_dir, entry.size).as_str());
        }
        i = i + 1;
    }
    assert(all.take(all.len() as int) =~= all);
    if s.as_str().is_empty() {
        s = "(empty)".to_owned();
    }
    proof {
        let keep = |e: Entry| e.path@ != resolved@;
        let line = |e: Entry|
            utf8_lossy(
                if resolved@.is_prefix_of(e.path@) {
                    joined(e.path@.skip(resolved@.len() as int))
                } else {
                    written(e.path@)
                },
            ) + (if e.is_dir {
                "/\n"@
            } else {
                "\t"@ + decimal(e.size as nat) + "\n"@
            });
        lemma_entries_listed(resolved@, entries@, keep, line);
    }
    limit_output(s, max_output)
}

/// A compiled regular expression of the `regex` crate.
#[verifier::external_type_specification]
#[verifier::external_body]
pub struct ExRegex(regex::Regex);

/// What decides the matches of a compiled regular expression. For one that
/// `regex::Regex::new` made, that is its pattern; for one that a builder made, the
/// flags that were set on it belong to it as well.
pub uninterp spec fn regex_pattern(re: Regex) -> Seq<char>;

/// Whether there is a match somewhere in a text, by what decides it.
pub uninterp spec fn regex_matches(pattern: Seq<char>, text: Seq<char>) -> bool;

/// `regex::Regex::new`: compiles a pattern, or says why it cannot. Which patterns
/// are accepted, and in what words the others are refused, is left open: one that
/// is well-formed can still exceed a size limit, which depends on the machine.
#[verifier::external_body]
fn compile(pattern: &str) -> (out: Result<Regex, String>)
    ensures
        out matches Ok(re) ==> regex_pattern(re) == pattern@,
{
    Regex::new(pattern).map_err(|e| e.to_string())
}

/// `regex::Regex::is_match`: whether the expression matches somewhere in the
/// text.
#[verifier::external_body]
fn is_match(re: &Regex, text: &str) -> (b: bool)
    ensures
        b == regex_matches(regex_pattern(*re), text@),
{
    re.is_match(text)
}

/// How far a search has come: what it found, and whether that was enough.
pub struct Hits {
    pub out: Seq<char>,
    pub count: nat,
    pub stopped: bool,
}

/// A search that has found nothing yet.
pub open spec fn no_hits() -> Hits {
    Hits { out: seq![], count: 0, stopped: false }
}

/// What is said where a search stops before the end.
pub open spec fn stop_text(limit: nat) -> Seq<char> {
    "... [stopped at "@ + decimal(limit) + " matches]\n"@
}

/// A search after one more line, which matches or not. It stops once `limit`
/// matching lines are reported; none is reported past that.
pub open spec fn after_line(
    h: Hits,
    shown: Seq<char>,
    number: nat,
    line: Seq<char>,
    matched: bool,
    limit: nat,
) -> Hits {
    if h.stopped || !matched {
        h
    } else if h.count >= limit {
        Hits { out: h.out + stop_text(limit), count: h.count, stopped: true }
    } else {
        let out = h.out + hit_line(shown, number, line);
        if h.count + 1 == limit {
            Hits { out: out + stop_text(limit), count: limit, stopped: true }
        } else {
            Hits { out, count: h.count + 1, stopped: false }
        }
    }
}

/// A search after the first `n` lines of a file.
pub open spec fn after_lines(
    h: Hits,
    shown: Seq<char>,
    pattern: Seq<char>,
    all: Seq<Seq<char>>,
    n: nat,
    limit: nat,
) -> Hits
    decreases n,
{
    if n == 0 {
        h
    } else {
        after_line(
            after_lines(h, shown, pattern, all, (n - 1) as nat, limit),
            shown,
            n,
            all[n - 1],
            regex_matches(pattern, all[n - 1]),
            limit,
        )
    }
}

/// A search after one more file. One that looks binary is passed over.
pub open spec fn after_file(
    h: Hits,
    shown: Seq<char>,
    pattern: Seq<char>,
    bytes: Seq<u8>,
    limit: nat,
) -> Hits {
    if h.stopped || looks_binary(bytes) {
        h
    } else {
        let all = lines(utf8_lossy(bytes));
        after_lines(h, shown, pattern, all, all.len(), limit)
    }
}

/// A search after a list of files, each with its path and its contents.
pub open spec fn after_files(
    root: Seq<Seq<u8>>,
    pattern: Seq<char>,
    files: Seq<(Seq<Seq<u8>>, Seq<u8>)>,
    limit: nat,
) -> Hits
    decreases files.len(),
{
    if files.len() == 0 {
        no_hits()
    } else {
        let (path, bytes) = files.last();
        after_file(
            after_files(root, pattern, files.drop_last(), limit),
            shown_path(root, path),
            pattern,
            bytes,
            limit,
        )
    }
}

/// A matching line as it is reported.
pub open spec fn hit_line(shown: Seq<char>, number: nat, line: Seq<char>) -> Seq<char> {
    shown + ":"@ + decimal(number) + ":"@ + trim_end(line) + "\n"@
}

/// The matching lines among the first `n` of a file, in order, as they are
/// reported.
pub open spec fn line_hits(
    shown: Seq<char>,
    pattern: Seq<char>,
    all: Seq<Seq<char>>,
    n: nat,
) -> Seq<Seq<char>>
    decreases n,
{
    if n == 0 {
        seq![]
    } else {
        let before = line_hits(shown, pattern, all, (n - 1) as nat);
        if regex_matches(pattern, all[n - 1]) {
            before.push(hit_line(shown, n, all[n - 1]))
        } else {
            before
        }
    }
}

/// The matching lines of a file. One that looks binary has none.
pub open spec fn file_hits(shown: Seq<char>, pattern: Seq<char>, bytes: Seq<u8>) -> Seq<Seq<char>> {
    if looks_binary(bytes) {
        seq![]
    } else {
        let all = lines(utf8_lossy(bytes));
        line_hits(shown, pattern, all, all.len())
    }
}

/// The matching lines of a list of files, in order.
pub open spec fn all_hits(
    root: Seq<Seq<u8>>,
    pattern: Seq<char>,
    files: Seq<(Seq<Seq<u8>>, Seq<u8>)>,
) -> Seq<Seq<char>>
    decreases files.len(),
{
    if files.len() == 0 {
        seq![]
    } else {
        let (path, bytes) = files.last();
        all_hits(root, pattern, files.drop_last()) + file_hits(
            shown_path(root, path),
            pattern,
            bytes,
        )
    }
}

/// The lines that are reported of those that match: the first ones, up to the
/// limit.
pub open spec fn first_hits(hits: Seq<Seq<char>>, limit: nat) -> Seq<Seq<char>> {
    if hits.len() <= limit {
        hits
    } else {
        hits.take(limit as int)
    }
}

/// Whether a search stops before the end: something matched, and it is as much
/// as was asked for.
pub open spec fn cut_short(hits: Seq<Seq<char>>, limit: nat) -> bool {
    hits.len() > 0 && hits.len() >= limit
}

/// What a search reports of the lines that match: the first ones up to the
/// limit, then, where the limit is reached, that it stopped there.
pub open spec fn report(hits: Seq<Seq<char>>, limit: nat) -> Seq<char> {
    first_hits(hits, limit).flatten() + if cut_short(hits, limit) {
        stop_text(limit)
    } else {
        seq![]
    }
}

/// What a search answers, by the lines that match.
pub open spec fn search_answer(hits: Seq<Seq<char>>, limit: nat) -> Seq<char> {
    if hits.len() == 0 {
        "(no matches)"@
    } else {
        report(hits, limit)
    }
}

/// What a search says in the end.
pub open spec fn search_text(h: Hits) -> Seq<char> {
    if h.out.len() == 0 {
        "(no matches)"@
    } else {
        h.out
    }
}

/// How many matches are enough: two hundred where nothing is said.
pub open spec fn search_limit(max_results: Option<u32>) -> nat {
    match max_results {
        Some(m) => m as nat,
        None => 200,
    }
}

/// What is told of a pattern that cannot be compiled.
pub open spec fn bad_pattern(why: Seq<char>) -> Complaint {
    Complaint::Refused("pattern is not a valid regular expression: "@ + why)
}

/// Tells of a pattern that cannot be compiled.
pub fn pattern_refused(why: &str) -> (e: FsError)
    ensures
        e@ == bad_pattern(why@),
{
    FsError::Refused(join2("pattern is not a valid regular expression: ", why))
}

/// A search under way.
pub struct Search {
    regex: Regex,
    limit: usize,
    out: String,
    count: usize,
    stopped: bool,
}

impl View for Search {
    type V = Hits;

    closed spec fn view(&self) -> Hits {
        Hits { out: self.out@, count: self.count as nat, stopped: self.stopped }
    }
}

impl Search {
    /// The pattern that is searched for, as [`regex_pattern`] names it.
    pub closed spec fn pattern(&self) -> Seq<char> {
        regex_pattern(self.regex)
    }

    /// How many matches are enough.
    pub closed spec fn enough(&self) -> nat {
        self.limit as nat
    }

    /// Whether no more was reported than is enough.
    pub closed spec fn wf(&self) -> bool {
        self.count <= self.limit
    }

    /// Starts a search with what compiling its pattern came to.
    pub fn begun(compiled: Result<Regex, String>, max_results: Option<u32>) -> (out: Result<
        Search,
        FsError,
    >)
        ensures
            match (compiled, out) {
                (Ok(re), Ok(s)) => s.wf() && s@ == no_hits() && s.pattern() == regex_pattern(re)
                    && s.enough() == search_limit(max_results),
                (Err(why), Err(e)) => e@ == bad_pattern(why@),
                _ => false,
            },
    {
        let limit: usize = match max_results {
            Some(m) => m as usize,
            None => 200,
        };
        match compiled {
            Err(why) => Err(pattern_refused(why.as_str())),
            Ok(regex) => {
                let s = Search { regex, limit, out: String::new(), count: 0, stopped: false };
                assert(s@.out =~= seq![]);
                Ok(s)
            },
        }
    }

    /// Starts a search, unless the pattern cannot be compiled.
    pub fn new(pattern: &str, max_results: Option<u32>) -> (out: Result<Search, FsError>)
        ensures
            match out {
                Ok(s) => s.wf() && s@ == no_hits() && s.pattern() == pattern@ && s.enough()
                    == search_limit(max_results),
                Err(e) => exists|why: Seq<char>| e@ == #[trigger] bad_pattern(why),
            },
    {
        Search::begun(compile(pattern), max_results)
    }

    /// Whether enough was found.
    pub fn is_over(&self) -> (b: bool)
        ensures
            b == self@.stopped,
    {
        self.stopped
    }

    /// Takes one more line, which matches or not.
    pub fn line(&mut self, shown: &str, number: usize, line: &str, matched: bool)
        requires
            old(self).wf(),
        ensures
            final(self).wf(),
            final(self).pattern() == old(self).pattern(),
            final(self).enough() == old(self).enough(),
            final(self)@ == after_line(
                old(self)@,
                shown@,
                number as nat,
                line@,
                matched,
                old(self).enough(),
            ),
    {
        if self.stopped || !matched {
            return;
        }
        if self.count < self.limit {
            let mut hit = join2(shown, ":");
            hit.append(decimal_text(number as u64).as_str());
            hit.append(":");
            hit.append(trim_right(line).as_str());
            hit.append("\n");
            self.out.append(hit.as_str());
            self.count = self.count + 1;
        }
        if self.count >= self.limit {
            let mut stop = join2("... [stopped at ", decimal_text(self.limit as u64).as_str());
            stop.append(" matches]\n");
            self.out.append(stop.as_str());
            self.stopped = true;
        }
    }

    /// Takes the lines of a file.
    fn lines_of(&mut self, shown: &str, text: &str)
        requires
            old(self).wf(),
        ensures
            final(self).wf(),
            final(self).pattern() == old(self).pattern(),
            final(self).enough() == old(self).enough(),
            final(self)@ == after_lines(
                old(self)@,
                shown@,
                old(self).pattern(),
                lines(text@),
                lines(text@).len(),
                old(self).enough(),
            ),
    {
        let all = split_lines(text);
        let ghost texts = lines(text@);
        assert(texts.len() == all@.len());
        let ghost start = self@;
        let count: usize = all.len();
        let mut i: usize = 0;
        while i < count
            invariant
                0 <= i <= count,
                count == all@.len(),
                views(all@) == texts,
                self.wf(),
                self.pattern() == old(self).pattern(),
                self.enough() == old(self).enough(),
                self@ == after_lines(
                    start,
                    shown@,
                    self.pattern(),
                    texts,
                    i as nat,
                    self.enough(),
                ),
            decreases count - i,
        {
            assert(texts[i as int] == all@[i as int]@);
            let matched = is_match(&self.regex, all[i].as_str());
            self.line(shown, i + 1, all[i].as_str(), matched);
            i = i + 1;
        }
    }

    /// Takes one more file, with its contents.
    pub fn file(&mut self, root: &Root, path: &AbsPath, bytes: &Vec<u8>)
        requires
            old(self).wf(),
        ensures
            final(self).wf(),
            final(self).pattern() == old(self).pattern(),
            final(self).enough() == old(self).enough(),
            final(self)@ == after_file(
                old(self)@,
                shown_path(root@, path@),
                old(self).pattern(),
                bytes@,
                old(self).enough(),
            ),
    {
        if self.stopped || is_binary(bytes) {
            return;
        }
        let shown = shown(root, path);
        let text = from_utf8_lossy(bytes.as_slice());
        self.lines_of(shown.as_str(), text.as_str());
    }

    /// Ends the search.
    pub fn finish(self, max_output: usize) -> (out: Result<String, FsError>)
        ensures
            told(out) == limited(search_text(self@), max_output as nat),
    {
        let mut s = self.out;
        if s.as_str().is_empty() {
            s = "(no matches)".to_owned();
        }
        limit_output(s, max_output)
    }
}

/// What a list of files holds.
pub open spec fn files_in(v: Seq<(AbsPath, Vec<u8>)>) -> Seq<(Seq<Seq<u8>>, Seq<u8>)> {
    v.map_values(|f: (AbsPath, Vec<u8>)| (f.0@, f.1@))
}

impl Search {
    /// Takes a list of files, and ends the search.
    pub fn over(self, root: &Root, files: &Vec<(AbsPath, Vec<u8>)>, max_output: usize) -> (out: Result<
        String,
        FsError,
    >)
        requires
            self.wf(),
            self@ == no_hits(),
        ensures
            told(out) == limited(
                search_answer(all_hits(root@, self.pattern(), files_in(files@)), self.enough()),
                max_output as nat,
            ),
    {
        let ghost pattern = self.pattern();
        let ghost limit = self.enough();
        let ghost all = files_in(files@);
        let mut search = self;
        let mut i: usize = 0;
        while i < files.len()
            invariant
                0 <= i <= files@.len(),
                all == files_in(files@),
                search.wf(),
                search.pattern() == pattern,
                search.enough() == limit,
                search@ == after_files(root@, pattern, all.take(i as int), limit),
            decreases files@.len() - i,
        {
            proof {
                assert(all.take(i as int + 1).drop_last() =~= all.take(i as int));
                assert(all.take(i as int + 1).last() == (files@[i as int].0@, files@[i as int].1@));
            }
            search.file(root, &files[i].0, &files[i].1);
            i = i + 1;
        }
        assert(all.take(all.len() as int) =~= all);
        proof {
            law_search_reports_first_hits(root@, pattern, all, limit);
        }
        search.finish(max_output)
    }
}

/// Searches files for the lines that match a pattern, unless the pattern cannot
/// be compiled.
pub fn search(
    root: &Root,
    pattern: &str,
    files: &Vec<(AbsPath, Vec<u8>)>,
    max_results: Option<u32>,
    max_output: usize,
) -> (out: Result<String, FsError>)
    ensures
        told(out) == limited(
            search_answer(
                all_hits(root@, pattern@, files_in(files@)),
                search_limit(max_results),
            ),
            max_output as nat,
        ) || (exists|why: Seq<char>|
            told(out) == Err::<Seq<char>, Complaint>(#[trigger] bad_pattern(why))),
        ({
            let hits = files_in(files@).map_values(
                |f: (Seq<Seq<u8>>, Seq<u8>)| file_hits(shown_path(root@, f.0), pattern@, f.1),
            ).flatten();
            let most: nat = if max_results is Some {
                max_results->0 as nat
            } else {
                200
            };
            told(out) == limited(
                (if hits.len() == 0 {
                    "(no matches)"@
                } else if hits.len() < most {
                    hits.flatten()
                } else {
                    hits.take(most as int).flatten() + ("... [stopped at "@ + decimal(most)
                        + " matches]\n"@)
                }),
                max_output as nat,
            )
        }) || (exists|why: Seq<char>|
            told(out) == Err::<Seq<char>, Complaint>(
                Complaint::Refused(#[trigger] ("pattern is not a valid regular expression: "@ + why)),
            )),
{
    proof {
        law_search_answer(root@, pattern@, files_in(files@), max_results);
    }
    match Search::new(pattern, max_results) {
        Ok(search) => search.over(root, files, max_output),
        Err(e) => Err(e),
    }
}

/// `.` leads to the root itself.
proof fn lemma_dot_leads_to_root(root: Seq<Seq<u8>>)
    ensures
        lexical_path(root, encode_utf8("."@)) == Some(root),
{
    reveal_strlit(".");
    assert(vstd::utf8::is_ascii_chars("."@));
    vstd::utf8::is_ascii_chars_encode_utf8("."@);
    let bytes = encode_utf8("."@);
    assert("."@[0] == '.');
    assert(bytes[0] == 46u8);
    assert(bytes =~= dot());
    reveal_with_fuel(crate::path::upto_slash, 2);
    assert(bytes.drop_first().len() == 0);
    assert(crate::path::upto_slash(bytes) == 1);
    assert(bytes.take(1) =~= dot());
    assert(components(bytes) =~= seq![]);
    assert(walk(root, components(bytes)) == Some(root));
    assert(root.subrange(0, root.len() as int) =~= root);
    assert(within(root, root));
}

/// A path as it is shown to a caller resolves back to the path that it stands
/// for, and so does the path written out in full. That is so on a disk that has
/// not changed since the path was resolved: the part of it that was found, `at`,
/// is still there and is where it says, and what was missing is still missing.
pub proof fn law_shown_path_resolves(
    root: Seq<Seq<u8>>,
    input: Seq<char>,
    present: spec_fn(Seq<Seq<u8>>) -> bool,
    canonical: spec_fn(Seq<Seq<u8>>) -> Result<Seq<Seq<u8>>, Seq<char>>,
    at: Seq<Seq<u8>>,
    p: Seq<Seq<u8>>,
)
    requires
        all_names(p),
        valid_utf8(written(p)),
        resolved(root, input, present, canonical) == Ok::<Seq<Seq<u8>>, Refused>(p),
        found_part(root, input, present, canonical) == Some(at),
        present(at),
        canonical(at) == Ok::<Seq<Seq<u8>>, Seq<char>>(at),
        forall|k: int| at.len() < k <= p.len() ==> !present(#[trigger] p.take(k)),
    ensures
        resolved(root, shown_path(root, p), present, canonical) == Ok::<Seq<Seq<u8>>, Refused>(p),
        resolved(root, utf8_lossy(written(p)), present, canonical) == Ok::<
            Seq<Seq<u8>>,
            Refused,
        >(p),
{
    law_resolved_within_root(root, input, present, canonical);
    law_shown_path_leads_back(root, p);
    let relative = Root::relative(root, p);
    lemma_valid_tail(p, root.len() as int);
    vstd::utf8::decode_utf8_encode_utf8(relative);
    vstd::utf8::decode_utf8_encode_utf8(written(p));
    if relative.len() == 0 {
        assert(p =~= root) by {
            crate::path::lemma_components_joined(p.skip(root.len() as int));
            assert(components(relative) =~= seq![]);
            assert(p.subrange(0, root.len() as int) == root);
        }
        lemma_dot_leads_to_root(root);
        assert(decode_utf8(relative).len() == 0);
    } else {
        assert(decode_utf8(relative).len() > 0);
    }
    lemma_resolves_again(root, input, present, canonical, at, p, shown_path(root, p));
    lemma_resolves_again(root, input, present, canonical, at, p, utf8_lossy(written(p)));
}

/// A text that was written to a file is read as it was written: its lines are
/// those that a read numbers and that a search looks at. A text with a NUL near
/// its start is taken for binary, and left out here.
pub proof fn law_written_text_is_read(
    shown: Seq<char>,
    content: Seq<char>,
    pattern: Seq<char>,
    offset: Option<u32>,
    limit: Option<u32>,
    max_output: nat,
)
    requires
        !looks_binary(encode_utf8(content)),
    ensures
        read_text(
            shown,
            Ok::<Seq<u8>, IoTrouble>(encode_utf8(content)),
            offset,
            limit,
            max_output,
        ) == excerpt(shown, content, offset, limit, max_output),
        file_hits(shown, pattern, encode_utf8(content)) == line_hits(
            shown,
            pattern,
            lines(content),
            lines(content).len(),
        ),
{
    vstd::utf8::encode_utf8_valid_utf8(content);
    vstd::utf8::encode_utf8_decode_utf8(content);
}

/// An edit of a file puts the new text where the old one stood, and changes
/// nothing else: what stood before it and behind it stays, and the new text goes
/// in as it was given. It is made exactly where the file could be read, and can be
/// taken apart around the old text in one way and no other.
pub proof fn law_edit_replaces_in_place(
    shown: Seq<char>,
    found: Result<Seq<char>, IoTrouble>,
    old_text: Seq<char>,
    new_text: Seq<char>,
)
    ensures
        edit_of(shown, found, old_text, new_text) matches Ok(t) ==> (found matches Ok(current)
            && exists|before: Seq<char>, after: Seq<char>|
            current == #[trigger] (before + old_text + after) && t == before + new_text + after),
        edit_of(shown, found, old_text, new_text) is Ok <==> (found matches Ok(current)
            && old_text.len() > 0 && exists|before: Seq<char>, after: Seq<char>|
            current == #[trigger] (before + old_text + after) && forall|b: Seq<char>, a: Seq<char>|
                current == #[trigger] (b + old_text + a) ==> b == before),
{
    if let Ok(current) = found {
        lemma_one_place(current, old_text);
        if edit_of(shown, found, old_text, new_text) is Ok {
            let k = choose|k: int| stands(current, old_text, k);
            let before = current.take(k);
            let after = current.skip(k + old_text.len());
            assert(exists|j: int| #[trigger] stands(current, old_text, j));
            assert(stands(current, old_text, k));
            assert(current =~= before + old_text + after) by {
                let old_part = current.subrange(k, k + old_text.len());
                assert(before + old_part + after =~= current);
            }
            assert forall|b: Seq<char>, a: Seq<char>| current == #[trigger] (b + old_text + a) implies b
                == before by {
                law_stands(current, old_text, b.len() as int);
                assert(stands(current, old_text, b.len() as int));
                assert(b.len() == k);
                assert(current.take(k) =~= b);
            }
        }
        if old_text.len() > 0 && exists|before: Seq<char>, after: Seq<char>|
            current == #[trigger] (before + old_text + after) && forall|b: Seq<char>, a: Seq<char>|
                current == #[trigger] (b + old_text + a) ==> b == before {
            let (before, after) = choose|before: Seq<char>, after: Seq<char>|
                current == #[trigger] (before + old_text + after) && forall|
                    b: Seq<char>,
                    a: Seq<char>,
                | current == #[trigger] (b + old_text + a) ==> b == before;
            law_stands(current, old_text, before.len() as int);
            assert(stands(current, old_text, before.len() as int));
            assert forall|j: int| #[trigger] stands(current, old_text, j) implies j
                == before.len() by {
                law_stands(current, old_text, j);
                let (b, a) = choose|b: Seq<char>, a: Seq<char>|
                    current == #[trigger] (b + old_text + a) && b.len() == j;
                assert(b == before);
            }
        }
    }
}

/// Each line of a read is the line of the file as it is, character for character,
/// behind its number and a tab.
pub proof fn law_numbered_line(all: Seq<Seq<char>>, i: nat)
    requires
        i < all.len(),
    ensures
        numbered(all, i, i + 1) == padded(decimal(i + 1), 6) + "\t"@ + all[i as int] + "\n"@,
{
    assert(numbered(all, i, i) =~= seq![]);
    assert(numbered(all, i, i + 1) =~= padded(decimal(i + 1), 6) + "\t"@ + all[i as int] + "\n"@);
}

/// Lines in a row are shown one after the other.
proof fn lemma_numbered_lines(all: Seq<Seq<char>>, from: nat, n: nat)
    requires
        from + n <= all.len(),
    ensures
        numbered(all, from, from + n) == Seq::new(
            n,
            |j: int|
                padded(decimal((from + j + 1) as nat), 6) + "\t"@ + all[from + j] + "\n"@,
        ).flatten(),
    decreases n,
{
    let each = |j: int| padded(decimal((from + j + 1) as nat), 6) + "\t"@ + all[from + j] + "\n"@;
    let shown = Seq::new(n, each);
    if n == 0 {
        assert(shown.flatten() =~= seq![]);
        assert(numbered(all, from, from + n) =~= seq![]);
    } else {
        let m = (n - 1) as nat;
        lemma_numbered_lines(all, from, m);
        let before = Seq::new(m, each);
        assert(shown =~= before.push(each(m as int)));
        before.lemma_flatten_push(each(m as int));
        law_pieces_join(all, from, from + m, from + n);
        law_numbered_line(all, from + m);
    }
}

/// What a read of a file shows: from the line `offset` on, as many lines as
/// `limit` allows, each of them as it is in the file, behind its number and a tab.
/// A file with a NUL among its first 8192 bytes, and an offset past the end, are
/// refused.
pub proof fn law_read_shows_lines(
    shown: Seq<char>,
    bytes: Seq<u8>,
    offset: Option<u32>,
    limit: Option<u32>,
    max_output: nat,
)
    ensures
        ({
            let all = lines(utf8_lossy(bytes));
            let start: nat = if offset is Some {
                offset->0 as nat
            } else {
                0
            };
            let left: nat = if start < all.len() {
                (all.len() - start) as nat
            } else {
                0
            };
            let n: nat = if limit is Some && limit->0 < left {
                limit->0 as nat
            } else {
                left
            };
            read_text(shown, Ok::<Seq<u8>, IoTrouble>(bytes), offset, limit, max_output) == if exists|
                i: int,
            |
                0 <= i < bytes.len() && i < 8192 && #[trigger] bytes[i] == 0 {
                Err(
                    Complaint::Refused(
                        shown + " looks like a binary file ("@ + decimal(bytes.len()) + " bytes)"@,
                    ),
                )
            } else if 0 < all.len() <= start {
                Err(
                    Complaint::Refused(
                        "offset "@ + decimal(start) + " is past the end of "@ + shown + " ("@
                            + decimal(all.len()) + " lines)"@,
                    ),
                )
            } else {
                limited(
                    Seq::new(
                        n,
                        |j: int|
                            padded(decimal((start + j + 1) as nat), 6) + "\t"@ + all[start + j]
                                + "\n"@,
                    ).flatten(),
                    max_output,
                )
            }
        }),
{
    let all = lines(utf8_lossy(bytes));
    let start: nat = if offset is Some {
        offset->0 as nat
    } else {
        0
    };
    let left: nat = if start < all.len() {
        (all.len() - start) as nat
    } else {
        0
    };
    let n: nat = if limit is Some && limit->0 < left {
        limit->0 as nat
    } else {
        left
    };
    let end = read_end(start, limit, all.len());
    if start < all.len() {
        lemma_numbered_lines(all, start, n);
        assert(end == start + n);
    } else if all.len() == 0 {
        assert(numbered(all, start, end) =~= seq![]);
        let none: Seq<Seq<char>> = Seq::new(
            n,
            |j: int|
                padded(decimal((start + j + 1) as nat), 6) + "\t"@ + all[start + j] + "\n"@,
        );
        assert(none.len() == 0);
        assert(none.flatten() =~= seq![]);
    }
}

/// A listing has one line for each entry of the walk beside the directory itself,
/// in the order of the walk, whatever its kind or size: its name below the
/// directory, with a slash behind it for a directory, and with its size for
/// anything else. Where there is none, the listing says so.
pub proof fn law_listing_shows_every_entry(dir: Seq<Seq<u8>>, entries: Seq<Found>)
    ensures
        ({
            let below = entries.filter(|e: Found| e.path != dir);
            let each = below.map_values(
                |e: Found|
                    utf8_lossy(
                        if dir.is_prefix_of(e.path) {
                            joined(e.path.skip(dir.len() as int))
                        } else {
                            written(e.path)
                        },
                    ) + (if e.is_dir {
                        "/\n"@
                    } else {
                        "\t"@ + decimal(e.size as nat) + "\n"@
                    }),
            );
            list_text(dir, entries) == if below.len() == 0 {
                "(empty)"@
            } else {
                each.flatten()
            }
        }),
{
    let line = |e: Found|
        utf8_lossy(
            if dir.is_prefix_of(e.path) {
                joined(e.path.skip(dir.len() as int))
            } else {
                written(e.path)
            },
        ) + (if e.is_dir {
            "/\n"@
        } else {
            "\t"@ + decimal(e.size as nat) + "\n"@
        });
    let keep = |e: Found| e.path != dir;
    assert forall|e: Found| #[trigger]
        line(e) == entry_line(utf8_lossy(Root::relative(dir, e.path)), e.is_dir, e.size) by {
        assert(line(e) =~= entry_line(
            utf8_lossy(Root::relative(dir, e.path)),
            e.is_dir,
            e.size,
        ));
    }
    lemma_listing(dir, entries, keep, line);
    let each = entries.filter(keep).map_values(line);
    if each.len() == 0 {
        assert(each.flatten() =~= seq![]);
    } else {
        let e = entries.filter(keep)[0];
        reveal_strlit("/\n");
        reveal_strlit("\n");
        assert(each[0] == line(e));
        assert(line(e).len() > 0);
        each.lemma_flatten_length_ge_single_element_length(0);
    }
}

/// The entries of a walk are listed as they were found.
proof fn lemma_entries_listed(
    dir: Seq<Seq<u8>>,
    entries: Seq<Entry>,
    keep_entry: spec_fn(Entry) -> bool,
    line_of: spec_fn(Entry) -> Seq<char>,
)
    requires
        forall|e: Entry| #[trigger] keep_entry(e) <==> e.path@ != dir,
        forall|e: Entry| #[trigger]
            line_of(e) == utf8_lossy(
                if dir.is_prefix_of(e.path@) {
                    joined(e.path@.skip(dir.len() as int))
                } else {
                    written(e.path@)
                },
            ) + (if e.is_dir {
                "/\n"@
            } else {
                "\t"@ + decimal(e.size as nat) + "\n"@
            }),
    ensures
        list_text(dir, found_in(entries)) == if entries.filter(keep_entry).len() == 0 {
            "(empty)"@
        } else {
            entries.filter(keep_entry).map_values(line_of).flatten()
        },
{
    law_listing_shows_every_entry(dir, found_in(entries));
    let keep = |e: Found| e.path != dir;
    let line = |e: Found|
        utf8_lossy(
            if dir.is_prefix_of(e.path) {
                joined(e.path.skip(dir.len() as int))
            } else {
                written(e.path)
            },
        ) + (if e.is_dir {
            "/\n"@
        } else {
            "\t"@ + decimal(e.size as nat) + "\n"@
        });
    lemma_entries_kept(entries, keep, keep_entry);
    let kept = found_in(entries).filter(keep);
    let kept_entries = entries.filter(keep_entry);
    assert(kept == found_in(kept_entries));
    assert forall|i: int| 0 <= i < kept_entries.len() implies #[trigger] kept.map_values(line)[i]
        == kept_entries.map_values(line_of)[i] by {
        assert(kept[i] == kept_entries[i]@);
    }
    assert(kept.map_values(line) =~= kept_entries.map_values(line_of));
}

/// The entries that are kept are those whose contents are.
proof fn lemma_entries_kept(
    entries: Seq<Entry>,
    keep: spec_fn(Found) -> bool,
    keep_entry: spec_fn(Entry) -> bool,
)
    requires
        forall|e: Entry| #[trigger] keep_entry(e) <==> keep(e@),
    ensures
        found_in(entries).filter(keep) == found_in(entries.filter(keep_entry)),
    decreases entries.len(),
{
    reveal(Seq::filter);
    let all = found_in(entries);
    if entries.len() == 0 {
        assert(all.filter(keep) =~= found_in(entries.filter(keep_entry)));
    } else {
        let front = entries.drop_last();
        lemma_entries_kept(front, keep, keep_entry);
        assert(all.drop_last() =~= found_in(front));
        assert(all.last() == entries.last()@);
        assert(all.filter(keep) =~= found_in(entries.filter(keep_entry)));
    }
}

/// The lines of a listing are those of its entries, one after the other.
proof fn lemma_listing(
    dir: Seq<Seq<u8>>,
    entries: Seq<Found>,
    keep: spec_fn(Found) -> bool,
    line: spec_fn(Found) -> Seq<char>,
)
    requires
        forall|e: Found| #[trigger] keep(e) <==> e.path != dir,
        forall|e: Found| #[trigger]
            line(e) == entry_line(utf8_lossy(Root::relative(dir, e.path)), e.is_dir, e.size),
    ensures
        listing(dir, entries) == entries.filter(keep).map_values(line).flatten(),
    decreases entries.len(),
{
    reveal(Seq::filter);
    let kept = entries.filter(keep);
    if entries.len() == 0 {
        assert(kept.map_values(line).flatten() =~= seq![]);
    } else {
        let front = entries.drop_last();
        let e = entries.last();
        lemma_listing(dir, front, keep, line);
        let before = front.filter(keep);
        if keep(e) {
            assert(kept == before.push(e));
            assert(kept.map_values(line) =~= before.map_values(line).push(line(e)));
            before.map_values(line).lemma_flatten_push(line(e));
        } else {
            assert(kept == before);
        }
    }
}

/// The lines that a search reports of a file are those that the expression
/// matches, each tried exactly as it stands in the file between its line breaks,
/// in order and none left out. A line is reported behind the path and its number,
/// without the white space at its end. Of a file with a NUL among its first 8192
/// bytes nothing is reported.
pub proof fn law_matching_lines_are_hits(shown: Seq<char>, pattern: Seq<char>, bytes: Seq<u8>)
    ensures
        ({
            let all = lines(utf8_lossy(bytes));
            let places = Seq::new(all.len(), |i: int| i).filter(
                |i: int| regex_matches(pattern, all[i]),
            );
            file_hits(shown, pattern, bytes) == if exists|i: int|
                0 <= i < bytes.len() && i < 8192 && #[trigger] bytes[i] == 0 {
                seq![]
            } else {
                places.map_values(
                    |i: int|
                        shown + ":"@ + decimal((i + 1) as nat) + ":"@ + trim_end(all[i]) + "\n"@,
                )
            }
        }),
{
    let all = lines(utf8_lossy(bytes));
    let keep = |i: int| regex_matches(pattern, all[i]);
    let line = |i: int|
        shown + ":"@ + decimal((i + 1) as nat) + ":"@ + trim_end(all[i]) + "\n"@;
    lemma_line_hits(shown, pattern, all, all.len(), keep, line);
}

/// The hits among the first lines of a file are the lines that match.
proof fn lemma_line_hits(
    shown: Seq<char>,
    pattern: Seq<char>,
    all: Seq<Seq<char>>,
    n: nat,
    keep: spec_fn(int) -> bool,
    line: spec_fn(int) -> Seq<char>,
)
    requires
        forall|i: int| #[trigger] keep(i) <==> regex_matches(pattern, all[i]),
        forall|i: int| i >= 0 ==> #[trigger] line(i) == hit_line(shown, (i + 1) as nat, all[i]),
    ensures
        line_hits(shown, pattern, all, n) == Seq::new(n, |i: int| i).filter(keep).map_values(line),
    decreases n,
{
    reveal(Seq::filter);
    let numbers = Seq::new(n, |i: int| i);
    let kept = numbers.filter(keep);
    if n == 0 {
        assert(kept.map_values(line) =~= seq![]);
    } else {
        let m = (n - 1) as nat;
        lemma_line_hits(shown, pattern, all, m, keep, line);
        assert(numbers.drop_last() =~= Seq::new(m, |i: int| i));
        let before = Seq::new(m, |i: int| i).filter(keep);
        assert(numbers.last() == m);
        if keep(m as int) {
            assert(kept == before.push(m as int));
            assert(kept.map_values(line) =~= before.map_values(line).push(line(m as int)));
        } else {
            assert(kept == before);
        }
    }
}

/// A line of a file is among its hits exactly where the expression matches it as
/// it stands, and as many hits stand before it as lines match before it.
pub proof fn law_hit_has_its_place(shown: Seq<char>, pattern: Seq<char>, all: Seq<Seq<char>>, i: nat)
    requires
        i < all.len(),
    ensures
        ({
            let hits = line_hits(shown, pattern, all, all.len());
            let at = line_hits(shown, pattern, all, i).len() as int;
            let hit = shown + ":"@ + decimal(i + 1) + ":"@ + trim_end(all[i as int]) + "\n"@;
            &&& at <= i
            &&& hits.take(at) == line_hits(shown, pattern, all, i)
            &&& regex_matches(pattern, all[i as int]) ==> at < hits.len() && hits[at] == hit
            &&& line_hits(shown, pattern, all, i + 1).len() == at + (if regex_matches(
                pattern,
                all[i as int],
            ) {
                1int
            } else {
                0int
            })
        }),
{
    lemma_hits_grow(shown, pattern, all, i, all.len());
    lemma_hits_grow(shown, pattern, all, i + 1, all.len());
    let next = line_hits(shown, pattern, all, i + 1);
    let hits = line_hits(shown, pattern, all, all.len());
    if regex_matches(pattern, all[i as int]) {
        assert(hits.take(next.len() as int)[next.len() - 1] == hits[next.len() - 1]);
    }
}

/// More lines add hits at the end, no more than one each.
proof fn lemma_hits_grow(
    shown: Seq<char>,
    pattern: Seq<char>,
    all: Seq<Seq<char>>,
    i: nat,
    n: nat,
)
    requires
        i <= n,
    ensures
        line_hits(shown, pattern, all, i).len() <= i,
        line_hits(shown, pattern, all, i).len() <= line_hits(shown, pattern, all, n).len(),
        line_hits(shown, pattern, all, n).take(line_hits(shown, pattern, all, i).len() as int)
            == line_hits(shown, pattern, all, i),
    decreases n,
{
    let few = line_hits(shown, pattern, all, i);
    if i == n {
        assert(few.take(few.len() as int) =~= few);
        if n > 0 {
            lemma_hits_grow(shown, pattern, all, (n - 1) as nat, (n - 1) as nat);
        }
    } else {
        lemma_hits_grow(shown, pattern, all, i, (n - 1) as nat);
        let before = line_hits(shown, pattern, all, (n - 1) as nat);
        assert(line_hits(shown, pattern, all, n).take(few.len() as int) =~= before.take(
            few.len() as int,
        ));
    }
}

/// What a search answers: the matching lines of the files, file by file in the
/// order of the walk. The first of them are reported, as many as were asked for;
/// where there are that many, the search says that it stopped there. Where no
/// line matches, it says so.
pub proof fn law_search_answer(
    root: Seq<Seq<u8>>,
    pattern: Seq<char>,
    files: Seq<(Seq<Seq<u8>>, Seq<u8>)>,
    max_results: Option<u32>,
)
    ensures
        ({
            let hits = files.map_values(
                |f: (Seq<Seq<u8>>, Seq<u8>)| file_hits(shown_path(root, f.0), pattern, f.1),
            ).flatten();
            let most: nat = if max_results is Some {
                max_results->0 as nat
            } else {
                200
            };
            search_answer(all_hits(root, pattern, files), search_limit(max_results)) == if hits.len()
                == 0 {
                "(no matches)"@
            } else if hits.len() < most {
                hits.flatten()
            } else {
                hits.take(most as int).flatten() + ("... [stopped at "@ + decimal(most)
                    + " matches]\n"@)
            }
        }),
{
    let of = |f: (Seq<Seq<u8>>, Seq<u8>)| file_hits(shown_path(root, f.0), pattern, f.1);
    lemma_all_hits(root, pattern, files, of);
    let hits = files.map_values(of).flatten();
    let most = search_limit(max_results);
    assert(first_hits(hits, most) =~= if hits.len() <= most {
        hits
    } else {
        hits.take(most as int)
    });
    if hits.len() == most {
        assert(hits.take(most as int) =~= hits);
    }
    assert(hits.flatten() + Seq::<char>::empty() =~= hits.flatten());
}

/// The hits of a list of files are those of each file, one after the other.
proof fn lemma_all_hits(
    root: Seq<Seq<u8>>,
    pattern: Seq<char>,
    files: Seq<(Seq<Seq<u8>>, Seq<u8>)>,
    of: spec_fn((Seq<Seq<u8>>, Seq<u8>)) -> Seq<Seq<char>>,
)
    requires
        forall|f: (Seq<Seq<u8>>, Seq<u8>)| #[trigger]
            of(f) == file_hits(shown_path(root, f.0), pattern, f.1),
    ensures
        all_hits(root, pattern, files) == files.map_values(of).flatten(),
    decreases files.len(),
{
    if files.len() == 0 {
        assert(files.map_values(of).flatten() =~= seq![]);
    } else {
        let front = files.drop_last();
        lemma_all_hits(root, pattern, front, of);
        assert(files.map_values(of) =~= front.map_values(of).push(of(files.last())));
        front.map_values(of).lemma_flatten_push(of(files.last()));
    }
}

/// An answer that fits is given as it is. A longer one is cut after as many bytes
/// as allowed, with a mark that says so, and refused only where that falls inside
/// a character.
pub proof fn law_limit_cuts_at_bytes(s: Seq<char>, max_output: nat)
    ensures
        ({
            let bytes = encode_utf8(s);
            limited(s, max_output) == if bytes.len() <= max_output {
                Ok::<Seq<char>, Complaint>(s)
            } else if valid_utf8(bytes.take(max_output as int)) {
                Ok::<Seq<char>, Complaint>(
                    decode_utf8(bytes.take(max_output as int)) + "\n... [truncated]"@,
                )
            } else {
                Err::<Seq<char>, Complaint>(Complaint::MidCharacter)
            }
        }),
{
    let bytes = encode_utf8(s);
    let at = max_output as int;
    vstd::utf8::encode_utf8_valid_utf8(s);
    if bytes.len() > max_output {
        let head = bytes.take(at);
        let tail = bytes.subrange(at, bytes.len() as int);
        assert(bytes.subrange(0, at) =~= head);
        if vstd::utf8::is_char_boundary(bytes, at) {
            vstd::utf8::valid_utf8_split(bytes, at);
        } else if valid_utf8(head) {
            if !valid_utf8(tail) {
                vstd::utf8::partial_valid_partial_invalid_utf8(bytes, at);
            }
            vstd::utf8::is_char_boundary_iff_not_is_continuation_byte(tail, 0);
            vstd::utf8::is_char_boundary_iff_not_is_continuation_byte(bytes, at);
            assert(tail[0] == bytes[at]);
        }
    }
}

/// A complaint about a file names it, and so does one about a path; trouble of no
/// known kind is passed on in its own words.
pub proof fn law_complaints_name_the_path(verb: Seq<char>, shown: Seq<char>, error: IoTrouble)
    ensures
        exists|a: Seq<char>, b: Seq<char>|
            cannot_text(verb, shown, error) == #[trigger] (a + shown + b),
        exists|a: Seq<char>, b: Seq<char>| absent_text(shown, error) == #[trigger] (a + shown + b),
        error.kind == IoKind::Other ==> exists|a: Seq<char>|
            cannot_text(verb, shown, error) == #[trigger] (a + error.text),
        error.kind != IoKind::NotFound ==> exists|a: Seq<char>|
            absent_text(shown, error) == #[trigger] (a + error.text),
{
    let none: Seq<char> = seq![];
    let hint = " (paths are relative to the sandbox root; list_dir shows what is there)"@;
    let trouble = ": "@ + error.text;
    match error.kind {
        IoKind::NotFound => {
            assert(cannot_text(verb, shown, error) == "no such file: "@ + shown + hint);
        },
        IoKind::IsADirectory => {
            assert(cannot_text(verb, shown, error) =~= none + shown
                + " is a directory, not a file; list_dir lists it"@);
        },
        IoKind::PermissionDenied => {
            assert(cannot_text(verb, shown, error) =~= ("not allowed to "@ + verb + " "@) + shown
                + none);
        },
        IoKind::Other => {
            assert(cannot_text(verb, shown, error) =~= ("cannot "@ + verb + " "@) + shown
                + trouble);
            assert(cannot_text(verb, shown, error) == ("cannot "@ + verb + " "@ + shown + ": "@)
                + error.text);
        },
    }
    if error.kind == IoKind::NotFound {
        assert(absent_text(shown, error) == "no such path: "@ + shown + hint);
    } else {
        assert(absent_text(shown, error) =~= "cannot open "@ + shown + trouble);
        assert(absent_text(shown, error) == ("cannot open "@ + shown + ": "@) + error.text);
    }
}

/// A path within the root is shown as the names that lead to it from there, and
/// the root itself as a dot.
pub proof fn law_shown_path_is_relative(root: Seq<Seq<u8>>, below: Seq<Seq<u8>>)
    requires
        all_names(below),
        valid_utf8(joined(below)),
    ensures
        below.len() == 0 ==> shown_path(root, root + below) == "."@,
        below.len() > 0 ==> encode_utf8(shown_path(root, root + below)) == joined(below),
{
    let path = root + below;
    assert(path.subrange(0, root.len() as int) =~= root);
    assert(path.skip(root.len() as int) =~= below);
    assert(Root::relative(root, path) == joined(below));
    vstd::utf8::decode_utf8_encode_utf8(joined(below));
    let text = decode_utf8(joined(below));
    if below.len() > 0 {
        crate::path::lemma_components_joined(below);
        if text.len() == 0 {
            assert(text =~= seq![]);
            assert(joined(below).len() == 0);
            assert(components(joined(below)) =~= seq![]);
        }
    } else {
        assert(joined(below) =~= seq![]);
        assert(decode_utf8(joined(below)) =~= seq![]);
    }
}

/// A write is answered with the number of bytes of the content, exactly where it
/// was done; what went wrong is told otherwise.
pub proof fn law_write_answer(shown: Seq<char>, content: Seq<char>, written: WriteOutcome)
    ensures
        write_text(shown, content, written) is Ok <==> written is Done,
        written is Done ==> write_text(shown, content, written) == Ok::<Seq<char>, Complaint>(
            "wrote "@ + decimal(encode_utf8(content).len()) + " bytes to "@ + shown,
        ),
        written matches WriteOutcome::NoParent(why) ==> write_text(shown, content, written) == Err::<
            Seq<char>,
            Complaint,
        >(Complaint::Refused("cannot create a parent directory for "@ + shown + ": "@ + why)),
        written matches WriteOutcome::Failed(e) ==> write_text(shown, content, written) == Err::<
            Seq<char>,
            Complaint,
        >(Complaint::Refused(cannot_text("write"@, shown, e))),
{
}

/// An edit that is refused says why: it names no text, the file cannot be read,
/// its text is missing, or stands at more places than one, of which it says how
/// many there are.
pub proof fn law_edit_refusals(
    shown: Seq<char>,
    found: Result<Seq<char>, IoTrouble>,
    old_text: Seq<char>,
    new_text: Seq<char>,
)
    ensures
        edit_of(shown, found, old_text, new_text) matches Err(complaint) ==> complaint
            == Complaint::Refused(
            if old_text.len() == 0 {
                "old_text must not be empty; use write_file to create a file"@
            } else {
                match found {
                    Err(e) => cannot_text("read"@, shown, e),
                    Ok(current) => if exists|k: int| #[trigger] stands(current, old_text, k) {
                        "old_text appears "@ + decimal(
                            Set::new(|k: int| stands(current, old_text, k)).len(),
                        ) + " times in "@ + shown + "; make it unique"@
                    } else {
                        "old_text does not appear in "@ + shown
                    },
                }
            },
        ),
{
    if let Ok(current) = found {
        lemma_no_place(current, old_text);
    }
}

/// An edit is made exactly where there is one place at which its text stands,
/// and no other: a text that is missing, or that could be meant at two places,
/// is never replaced.
pub proof fn law_edit_needs_one_place(
    shown: Seq<char>,
    current: Seq<char>,
    old_text: Seq<char>,
    new_text: Seq<char>,
)
    ensures
        edited_text(shown, current, old_text, new_text) is Ok <==> old_text.len() > 0 && exists|
            k: int,
        | #[trigger]
            stands(current, old_text, k) && forall|j: int| #[trigger]
                stands(current, old_text, j) ==> j == k,
{
    lemma_one_place(current, old_text);
}

/// An edit changes nothing but the text that it names: what stands before and
/// after it is kept.
pub proof fn law_edit_is_local(
    shown: Seq<char>,
    current: Seq<char>,
    old_text: Seq<char>,
    new_text: Seq<char>,
)
    requires
        edited_text(shown, current, old_text, new_text) is Ok,
    ensures
        exists|before: Seq<char>, after: Seq<char>|
            current == #[trigger] (before + old_text + after) && edited_text(
                shown,
                current,
                old_text,
                new_text,
            ) == Ok::<Seq<char>, Complaint>(before + new_text + after),
{
    lemma_one_place(current, old_text);
    let k = choose|k: int| stands(current, old_text, k);
    let before = current.take(k);
    let after = current.skip(k + old_text.len());
    assert(current =~= before + old_text + after) by {
        assert(current.subrange(k, k + old_text.len()) == old_text);
    }
}

/// An edit can be undone: where the new text stands at one place only
/// afterwards, replacing it by the old one restores the file.
pub proof fn law_edit_undone(
    shown: Seq<char>,
    current: Seq<char>,
    old_text: Seq<char>,
    new_text: Seq<char>,
    after: Seq<char>,
)
    requires
        edited_text(shown, current, old_text, new_text) == Ok::<Seq<char>, Complaint>(after),
        new_text.len() > 0,
        count_matches(after, new_text) == 1,
    ensures
        edited_text(shown, after, new_text, old_text) == Ok::<Seq<char>, Complaint>(current),
{
    lemma_one_place(current, old_text);
    lemma_one_place(after, new_text);
    let k = choose|k: int| stands(current, old_text, k);
    let before = current.take(k);
    let rest = current.skip(k + old_text.len());
    assert(after.subrange(k, k + new_text.len()) =~= new_text);
    assert(stands(after, new_text, k));
    assert(k == choose|k: int| stands(after, new_text, k));
    assert(after.take(k) =~= before);
    assert(after.skip(k + new_text.len()) =~= rest);
    assert(current =~= before + old_text + rest) by {
        assert(current.subrange(k, k + old_text.len()) == old_text);
    }
}

/// A file can be read in pieces: lines up to one place and from there on are the
/// lines of the whole stretch, with the same numbers.
pub proof fn law_pieces_join(all: Seq<Seq<char>>, from: nat, middle: nat, to: nat)
    requires
        from <= middle <= to,
    ensures
        numbered(all, from, middle) + numbered(all, middle, to) == numbered(all, from, to),
    decreases to,
{
    if middle == to {
        assert(numbered(all, from, middle) + numbered(all, middle, to) =~= numbered(all, from, to));
    } else {
        law_pieces_join(all, from, middle, (to - 1) as nat);
        assert(numbered(all, from, middle) + numbered(all, middle, to) =~= numbered(all, from, to));
    }
}

/// A search that has stopped takes no more lines.
proof fn lemma_stopped_stays(
    h: Hits,
    shown: Seq<char>,
    pattern: Seq<char>,
    all: Seq<Seq<char>>,
    n: nat,
    limit: nat,
)
    requires
        h.stopped,
    ensures
        after_lines(h, shown, pattern, all, n, limit) == h,
    decreases n,
{
    if n > 0 {
        lemma_stopped_stays(h, shown, pattern, all, (n - 1) as nat, limit);
    }
}

/// Whether a search is where the lines that match so far lead it.
spec fn keeps_up(h: Hits, hits: Seq<Seq<char>>, limit: nat) -> bool {
    &&& h.out == report(hits, limit)
    &&& h.count == first_hits(hits, limit).len()
    &&& h.stopped == cut_short(hits, limit)
}

/// One more line keeps it so.
proof fn lemma_line_keeps_up(
    h: Hits,
    hits: Seq<Seq<char>>,
    shown: Seq<char>,
    number: nat,
    line: Seq<char>,
    limit: nat,
)
    requires
        keeps_up(h, hits, limit),
    ensures
        keeps_up(
            after_line(h, shown, number, line, true, limit),
            hits.push(hit_line(shown, number, line)),
            limit,
        ),
{
    let one = hit_line(shown, number, line);
    let more = hits.push(one);
    if h.stopped {
        assert(first_hits(more, limit) =~= first_hits(hits, limit));
    } else if h.count >= limit {
        assert(hits =~= seq![]);
        assert(first_hits(more, limit) =~= seq![]);
        assert(first_hits(hits, limit) =~= seq![]);
        assert(after_line(h, shown, number, line, true, limit).out =~= report(more, limit));
    } else {
        assert(first_hits(more, limit) =~= more);
        hits.lemma_flatten_push(one);
        assert(h.out =~= hits.flatten());
        assert(after_line(h, shown, number, line, true, limit).out =~= report(more, limit));
    }
}

/// So do the lines of a file.
proof fn lemma_lines_keep_up(
    h: Hits,
    hits: Seq<Seq<char>>,
    shown: Seq<char>,
    pattern: Seq<char>,
    all: Seq<Seq<char>>,
    n: nat,
    limit: nat,
)
    requires
        keeps_up(h, hits, limit),
    ensures
        keeps_up(
            after_lines(h, shown, pattern, all, n, limit),
            hits + line_hits(shown, pattern, all, n),
            limit,
        ),
    decreases n,
{
    if n == 0 {
        assert(hits + line_hits(shown, pattern, all, n) =~= hits);
    } else {
        let m = (n - 1) as nat;
        lemma_lines_keep_up(h, hits, shown, pattern, all, m, limit);
        let before = hits + line_hits(shown, pattern, all, m);
        if regex_matches(pattern, all[m as int]) {
            lemma_line_keeps_up(
                after_lines(h, shown, pattern, all, m, limit),
                before,
                shown,
                n,
                all[m as int],
                limit,
            );
            assert(hits + line_hits(shown, pattern, all, n) =~= before.push(
                hit_line(shown, n, all[m as int]),
            ));
        } else {
            assert(hits + line_hits(shown, pattern, all, n) =~= before);
        }
    }
}

/// So do files.
proof fn lemma_files_keep_up(
    root: Seq<Seq<u8>>,
    pattern: Seq<char>,
    files: Seq<(Seq<Seq<u8>>, Seq<u8>)>,
    limit: nat,
)
    ensures
        keeps_up(
            after_files(root, pattern, files, limit),
            all_hits(root, pattern, files),
            limit,
        ),
    decreases files.len(),
{
    let none: Seq<Seq<char>> = seq![];
    if files.len() == 0 {
        assert(first_hits(none, limit) =~= none);
        assert(none.flatten() =~= seq![]);
        assert(report(none, limit) =~= seq![]);
    } else {
        let rest = files.drop_last();
        lemma_files_keep_up(root, pattern, rest, limit);
        let h = after_files(root, pattern, rest, limit);
        let hits = all_hits(root, pattern, rest);
        let (path, bytes) = files.last();
        if looks_binary(bytes) {
            assert(hits + none =~= hits);
        } else {
            let all = lines(utf8_lossy(bytes));
            let shown = shown_path(root, path);
            lemma_lines_keep_up(h, hits, shown, pattern, all, all.len(), limit);
            if h.stopped {
                lemma_stopped_stays(h, shown, pattern, all, all.len(), limit);
            }
        }
    }
}

/// A search reports the first of the lines that match, in the order of the files
/// and of the lines in each, up to the limit. Where the limit is reached, it says
/// that it stopped there; where nothing matches, it says so.
pub proof fn law_search_reports_first_hits(
    root: Seq<Seq<u8>>,
    pattern: Seq<char>,
    files: Seq<(Seq<Seq<u8>>, Seq<u8>)>,
    limit: nat,
)
    ensures
        ({
            let h = after_files(root, pattern, files, limit);
            let hits = all_hits(root, pattern, files);
            &&& h.out == report(hits, limit)
            &&& h.count == first_hits(hits, limit).len()
            &&& h.stopped == cut_short(hits, limit)
            &&& search_text(h) == search_answer(hits, limit)
        }),
{
    lemma_files_keep_up(root, pattern, files, limit);
    let hits = all_hits(root, pattern, files);
    let first = first_hits(hits, limit);
    if hits.len() == 0 {
        assert(first =~= seq![]);
        assert(first.flatten() =~= seq![]);
        assert(report(hits, limit) =~= seq![]);
    } else if limit == 0 {
        reveal_strlit("... [stopped at ");
        assert(report(hits, limit).len() >= stop_text(limit).len());
        assert(stop_text(limit).len() > 0);
    } else {
        lemma_hits_not_empty(root, pattern, files);
        assert(first[0] == hits[0]);
        first.lemma_flatten_length_ge_single_element_length(0);
    }
}

/// Whether no line of a list is empty.
spec fn none_empty(hits: Seq<Seq<char>>) -> bool {
    forall|i: int| 0 <= i < hits.len() ==> (#[trigger] hits[i]).len() > 0
}

/// No reported line is empty: each ends in a line break.
proof fn lemma_hits_not_empty(
    root: Seq<Seq<u8>>,
    pattern: Seq<char>,
    files: Seq<(Seq<Seq<u8>>, Seq<u8>)>,
)
    ensures
        none_empty(all_hits(root, pattern, files)),
    decreases files.len(),
{
    if files.len() > 0 {
        lemma_hits_not_empty(root, pattern, files.drop_last());
        let (path, bytes) = files.last();
        let all = lines(utf8_lossy(bytes));
        lemma_line_hits_not_empty(shown_path(root, path), pattern, all, all.len());
    }
}

/// No reported line of a file is empty.
proof fn lemma_line_hits_not_empty(
    shown: Seq<char>,
    pattern: Seq<char>,
    all: Seq<Seq<char>>,
    n: nat,
)
    ensures
        none_empty(line_hits(shown, pattern, all, n)),
    decreases n,
{
    reveal_strlit("\n");
    if n > 0 {
        lemma_line_hits_not_empty(shown, pattern, all, (n - 1) as nat);
    }
}

/// Whether a search kept to its limit: it reported no more than that, stopped
/// once it had reported that many, and reported nothing where the limit is zero.
pub open spec fn kept_to(h: Hits, limit: nat) -> bool {
    &&& h.count <= limit
    &&& h.stopped ==> h.count == limit
    &&& limit > 0 && h.count == limit ==> h.stopped
    &&& limit == 0 ==> h.out == (if h.stopped {
        stop_text(0)
    } else {
        seq![]
    })
}

/// A search never reports more lines than it was asked for, and stops as soon as
/// it has reported that many. Asked for none, it says at most that it stopped.
pub proof fn law_search_stops(
    root: Seq<Seq<u8>>,
    pattern: Seq<char>,
    files: Seq<(Seq<Seq<u8>>, Seq<u8>)>,
    limit: nat,
)
    ensures
        kept_to(after_files(root, pattern, files, limit), limit),
{
    law_search_reports_first_hits(root, pattern, files, limit);
    let hits = all_hits(root, pattern, files);
    if limit == 0 {
        assert(first_hits(hits, limit) =~= seq![]);
        assert(first_hits(hits, limit).flatten() =~= seq![]);
        assert(report(hits, 0) =~= after_files(root, pattern, files, limit).out);
    }
}

/// Cutting an answer keeps what it starts with, and puts nothing but the mark
/// behind it; an answer within the limit is left as it is.
pub proof fn law_limit_keeps_start(s: Seq<char>, max_output: nat)
    requires
        can_cut(s, max_output),
    ensures
        byte_len(s) <= max_output ==> limited(s, max_output) == Ok::<Seq<char>, Complaint>(s),
        byte_len(s) > max_output ==> exists|kept: Seq<char>|
            limited(s, max_output) == Ok::<Seq<char>, Complaint>(kept + crate::text::cut_mark())
                && #[trigger] byte_len(kept) == max_output && kept.is_prefix_of(s),
{
    if byte_len(s) > max_output {
        let bytes = vstd::utf8::encode_utf8(s);
        let at = max_output as int;
        let head = bytes.subrange(0, at);
        let kept = vstd::utf8::decode_utf8(head);
        vstd::utf8::encode_utf8_valid_utf8(s);
        vstd::utf8::valid_utf8_split(bytes, at);
        vstd::utf8::decode_utf8_encode_utf8(head);
        vstd::utf8::decode_utf8_split(bytes, at);
        vstd::utf8::encode_utf8_decode_utf8(s);
        assert(bytes.take(at) =~= head);
        assert(byte_len(kept) == max_output);
        assert(s.subrange(0, kept.len() as int) =~= kept);
    }
}

} // verus!
