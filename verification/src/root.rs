//! Every path that reaches the file system goes through [`Root`].
//!
//! Containment is enforced in two stages because either one alone can be
//! bypassed: following `..` in the text keeps it from ever touching the disk,
//! and resolving the deepest ancestor that exists keeps out symbolic links that
//! lead out of the root. The disk itself is asked through the two functions that
//! [`Root::resolve`] is given.
use vstd::prelude::*;
use vstd::utf8::encode_utf8;

use crate::path::{
    all_names, components, is_absolute, joined, lemma_components_joined, lemma_walk_names, names,
    walk, walk_path, written, AbsPath, SLASH,
};
use crate::text;

verus! {

/// Why a path was refused.
#[derive(Debug)]
pub enum RootError {
    /// The path leads out of the root. Holds the path as it was given.
    Escape(String),
    /// The disk could not say where the path leads.
    Io { path: String, source: String },
}

/// What a [`RootError`] says.
pub enum Refused {
    Escape(Seq<char>),
    Io { path: Seq<char>, source: Seq<char> },
}

impl View for RootError {
    type V = Refused;

    open spec fn view(&self) -> Refused {
        match self {
            RootError::Escape(input) => Refused::Escape(input@),
            RootError::Io { path, source } => Refused::Io { path: path@, source: source@ },
        }
    }
}

impl Refused {
    /// The error as one line.
    pub open spec fn said(self) -> Seq<char> {
        match self {
            Refused::Escape(input) => "path escapes the sandbox root: "@ + input,
            Refused::Io { path, source } => "cannot resolve "@ + path + ": "@ + source,
        }
    }

    /// The error followed by what caused it, as a chain of causes is written.
    pub open spec fn chain(self) -> Seq<char> {
        match self {
            Refused::Escape(_) => self.said(),
            Refused::Io { path: _, source } => self.said() + ": "@ + source,
        }
    }
}

impl RootError {
    /// Says what happened.
    pub fn message(&self) -> (s: String)
        ensures
            s@ == self@.said(),
    {
        match self {
            RootError::Escape(input) => {
                text::join2("path escapes the sandbox root: ", input.as_str())
            },
            RootError::Io { path, source } => {
                let mut s = text::join2("cannot resolve ", path.as_str());
                s.append(": ");
                s.append(source.as_str());
                s
            },
        }
    }

    /// Says what happened, and then what caused it.
    pub fn message_chain(&self) -> (s: String)
        ensures
            s@ == self@.chain(),
    {
        let mut s = self.message();
        match self {
            RootError::Escape(_) => s,
            RootError::Io { path: _, source } => {
                s.append(": ");
                s.append(source.as_str());
                s
            },
        }
    }
}

/// Whether `path` lies at or below `root`.
pub open spec fn within(root: Seq<Seq<u8>>, path: Seq<Seq<u8>>) -> bool {
    root.is_prefix_of(path)
}

/// Where a path leads by its text alone: `.` is skipped, `..` followed, and a
/// relative path starts at the root. `None` where that is not within the root.
pub open spec fn lexical_path(root: Seq<Seq<u8>>, input: Seq<u8>) -> Option<Seq<Seq<u8>>> {
    let from = if is_absolute(input) {
        seq![]
    } else {
        root
    };
    match walk(from, components(input)) {
        Some(p) if within(root, p) => Some(p),
        _ => None,
    }
}

/// How many names of `path` lead to something on disk, at most `upto`: the
/// deepest ancestor for which `present` holds. `None` where not even the top is.
pub open spec fn deepest(
    path: Seq<Seq<u8>>,
    upto: nat,
    present: spec_fn(Seq<Seq<u8>>) -> bool,
) -> Option<nat>
    decreases upto,
{
    if present(path.take(upto as int)) {
        Some(upto)
    } else if upto == 0 {
        None
    } else {
        deepest(path, (upto - 1) as nat, present)
    }
}

/// Where the path `lexical` leads once its first `n` names are found at `found`
/// on disk: within the root, with the names that do not exist put back.
pub open spec fn settled(
    root: Seq<Seq<u8>>,
    input: Seq<char>,
    lexical: Seq<Seq<u8>>,
    n: nat,
    found: Result<Seq<Seq<u8>>, Seq<char>>,
) -> Result<Seq<Seq<u8>>, Refused> {
    match found {
        Ok(at) => if within(root, at) {
            Ok(at + lexical.skip(n as int))
        } else {
            Err(Refused::Escape(input))
        },
        Err(source) => Err(
            Refused::Io { path: text::utf8_lossy(written(lexical.take(n as int))), source },
        ),
    }
}

/// Where a path leads on a disk. `present` tells what exists there, symbolic
/// links included, and `canonical` where something that exists really is, or why
/// the disk cannot say.
pub open spec fn resolved(
    root: Seq<Seq<u8>>,
    input: Seq<char>,
    present: spec_fn(Seq<Seq<u8>>) -> bool,
    canonical: spec_fn(Seq<Seq<u8>>) -> Result<Seq<Seq<u8>>, Seq<char>>,
) -> Result<Seq<Seq<u8>>, Refused> {
    match lexical_path(root, encode_utf8(input)) {
        None => Err(Refused::Escape(input)),
        Some(lexical) => match deepest(lexical, lexical.len(), present) {
            None => Err(Refused::Escape(input)),
            Some(n) => settled(root, input, lexical, n, canonical(lexical.take(n as int))),
        },
    }
}

/// What a resolution came to.
pub open spec fn outcome(out: Result<AbsPath, RootError>) -> Result<Seq<Seq<u8>>, Refused> {
    match out {
        Ok(p) => Ok(p@),
        Err(e) => Err(e@),
    }
}

/// What the disk said of where something is.
pub open spec fn answer(found: Result<AbsPath, String>) -> Result<Seq<Seq<u8>>, Seq<char>> {
    match found {
        Ok(p) => Ok(p@),
        Err(why) => Err(why@),
    }
}

/// The directory that every path is confined to.
#[derive(Debug)]
pub struct Root {
    root: AbsPath,
}

impl View for Root {
    type V = Seq<Seq<u8>>;

    closed spec fn view(&self) -> Seq<Seq<u8>> {
        self.root@
    }
}

impl Root {
    /// Takes the directory that paths are confined to. `given` is the directory
    /// as it was named, and `canonical` where the disk says that it is.
    pub fn new(given: &str, canonical: Result<AbsPath, String>) -> (out: Result<Root, RootError>)
        ensures
            match (canonical, out) {
                (Ok(p), Ok(r)) => r@ == p@,
                (Err(why), Err(e)) => e@ == (Refused::Io { path: given@, source: why@ }),
                _ => false,
            },
    {
        match canonical {
            Ok(root) => Ok(Root { root }),
            Err(source) => Err(RootError::Io { path: given.to_owned(), source }),
        }
    }

    /// The directory itself.
    pub fn path(&self) -> (p: &AbsPath)
        ensures
            p@ == self@,
    {
        &self.root
    }

    /// Skips `.` and follows `..` in the text, then requires the result to lie
    /// within the root. An absolute path is kept as it is, so that it is refused
    /// outside the root rather than read as a relative one.
    pub fn lexical(&self, input: &str) -> (out: Result<AbsPath, RootError>)
        ensures
            outcome(out) == (match lexical_path(self@, encode_utf8(input@)) {
                Some(p) => Ok(p),
                None => Err(Refused::Escape(input@)),
            }),
    {
        let bytes = input.as_bytes();
        let none: Vec<Vec<u8>> = Vec::new();
        assert(names(none@) =~= seq![]);
        let from: Vec<Vec<u8>> = if bytes.len() > 0 && bytes[0] == SLASH {
            none
        } else {
            let from = self.root.extend_with(none, 0, self.root.len());
            assert(names(from@) =~= self@);
            from
        };
        match walk_path(from, bytes) {
            None => Err(RootError::Escape(input.to_owned())),
            Some(parts) => {
                let p = AbsPath::of_parts(parts);
                if p.starts_with(&self.root) {
                    Ok(p)
                } else {
                    Err(RootError::Escape(input.to_owned()))
                }
            },
        }
    }

    /// The last step of a resolution: `found` is where the disk says that the
    /// first `depth` names of `lexical` are.
    pub fn settle(
        &self,
        input: &str,
        lexical: &AbsPath,
        depth: usize,
        found: Result<AbsPath, String>,
    ) -> (out: Result<AbsPath, RootError>)
        requires
            depth <= lexical@.len(),
        ensures
            outcome(out) == settled(self@, input@, lexical@, depth as nat, answer(found)),
            out matches Ok(p) ==> within(self@, p@),
    {
        match found {
            Err(source) => {
                let path = lexical.prefix(depth).display();
                Err(RootError::Io { path, source })
            },
            Ok(at) => {
                if !at.starts_with(&self.root) {
                    return Err(RootError::Escape(input.to_owned()));
                }
                let p = at.join(lexical, depth);
                proof {
                    lemma_within_extends(self@, at@, lexical@.skip(depth as int));
                }
                Ok(p)
            },
        }
    }

    /// Resolves a path that a caller supplied to a path within the root. It need
    /// not exist, so this covers files that are about to be created.
    ///
    /// `present` asks the disk whether something is there; it must count a
    /// symbolic link that leads nowhere, because writing through it would land
    /// elsewhere. `canonical` asks where something that is there really is.
    ///
    /// Whatever the disk answers, the result lies within the root. Where its
    /// answers depend on the path alone, the result is the one that
    /// [`resolved`] states.
    pub fn resolve<P, C>(&self, input: &str, present: P, canonical: C) -> (out: Result<
        AbsPath,
        RootError,
    >) where P: Fn(&AbsPath) -> bool, C: Fn(&AbsPath) -> Result<AbsPath, String>
        requires
            forall|p: &AbsPath| #[trigger] call_requires(present, (p,)),
            forall|p: &AbsPath| #[trigger] call_requires(canonical, (p,)),
        ensures
            out matches Ok(p) ==> within(self@, p@),
            out matches Ok(p) ==> self@.len() <= p@.len() && p@.subrange(0, self@.len() as int)
                == self@,
            lexical_path(self@, encode_utf8(input@)) is None ==> outcome(out) == Err::<
                Seq<Seq<u8>>,
                Refused,
            >(Refused::Escape(input@)),
            forall|
                here: spec_fn(Seq<Seq<u8>>) -> bool,
                there: spec_fn(Seq<Seq<u8>>) -> Result<Seq<Seq<u8>>, Seq<char>>,
            |
                (forall|p: &AbsPath, b: bool|
                    #[trigger] call_ensures(present, (p,), b) ==> b == here(p@)) && (forall|
                    p: &AbsPath,
                    r: Result<AbsPath, String>,
                |
                    #[trigger] call_ensures(canonical, (p,), r) ==> answer(r) == there(p@))
                    ==> outcome(out) == #[trigger] resolved(self@, input@, here, there),
    {
        let lexical = self.lexical(input)?;
        let mut depth: usize = lexical.len();
        loop
            invariant
                depth <= lexical@.len(),
                lexical_path(self@, encode_utf8(input@)) == Some(lexical@),
                forall|p: &AbsPath| #[trigger] call_requires(present, (p,)),
                forall|p: &AbsPath| #[trigger] call_requires(canonical, (p,)),
                forall|here: spec_fn(Seq<Seq<u8>>) -> bool|
                    (forall|p: &AbsPath, b: bool|
                        #[trigger] call_ensures(present, (p,), b) ==> b == here(p@))
                        ==> #[trigger] deepest(lexical@, lexical@.len(), here) == deepest(
                        lexical@,
                        depth as nat,
                        here,
                    ),
            decreases depth,
        {
            let ancestor = lexical.prefix(depth);
            if present(&ancestor) {
                let found = canonical(&ancestor);
                return self.settle(input, &lexical, depth, found);
            }
            if depth == 0 {
                return Err(RootError::Escape(input.to_owned()));
            }
            depth = depth - 1;
        }
    }

    /// A path relative to the root, as it is written; a path outside it as it
    /// is.
    pub open spec fn relative(root: Seq<Seq<u8>>, path: Seq<Seq<u8>>) -> Seq<u8> {
        if within(root, path) {
            joined(path.skip(root.len() as int))
        } else {
            written(path)
        }
    }

    /// Writes a resolved path relative to the root.
    pub fn relativize(&self, path: &AbsPath) -> (out: Vec<u8>)
        ensures
            out@ == Root::relative(self@, path@),
    {
        if path.starts_with(&self.root) {
            path.join_from(self.root.len())
        } else {
            path.to_bytes()
        }
    }
}

/// What lies below something within the root is within the root.
pub proof fn lemma_within_extends(root: Seq<Seq<u8>>, at: Seq<Seq<u8>>, tail: Seq<Seq<u8>>)
    requires
        within(root, at),
    ensures
        within(root, at + tail),
{
    assert((at + tail).subrange(0, root.len() as int) =~= at.subrange(0, root.len() as int));
}

/// The file tools cannot leave the root: whatever exists on the disk, and
/// wherever its symbolic links lead, a path that is resolved lies within the
/// root.
pub proof fn law_resolved_within_root(
    root: Seq<Seq<u8>>,
    input: Seq<char>,
    present: spec_fn(Seq<Seq<u8>>) -> bool,
    canonical: spec_fn(Seq<Seq<u8>>) -> Result<Seq<Seq<u8>>, Seq<char>>,
)
    ensures
        resolved(root, input, present, canonical) matches Ok(p) ==> within(root, p),
        resolved(root, input, present, canonical) matches Ok(p) ==> root.len() <= p.len()
            && p.subrange(0, root.len() as int) == root,
{
    if let Some(lexical) = lexical_path(root, encode_utf8(input)) {
        if let Some(n) = deepest(lexical, lexical.len(), present) {
            if let Ok(at) = canonical(lexical.take(n as int)) {
                if within(root, at) {
                    lemma_within_extends(root, at, lexical.skip(n as int));
                }
            }
        }
    }
}


/// A symbolic link that leads out of the root is refused, whether or not what it
/// leads to exists: so is everything below it.
pub proof fn law_way_out_refused(
    root: Seq<Seq<u8>>,
    input: Seq<char>,
    present: spec_fn(Seq<Seq<u8>>) -> bool,
    canonical: spec_fn(Seq<Seq<u8>>) -> Result<Seq<Seq<u8>>, Seq<char>>,
    lexical: Seq<Seq<u8>>,
    n: nat,
    outside: Seq<Seq<u8>>,
)
    requires
        lexical_path(root, encode_utf8(input)) == Some(lexical),
        deepest(lexical, lexical.len(), present) == Some(n),
        canonical(lexical.take(n as int)) == Ok::<Seq<Seq<u8>>, Seq<char>>(outside),
        !within(root, outside),
    ensures
        resolved(root, input, present, canonical) == Err::<Seq<Seq<u8>>, Refused>(
            Refused::Escape(input),
        ),
{
}

/// A symbolic link that leads nowhere is refused too, rather than taken for a
/// file that is yet to be created: writing through it would land elsewhere.
pub proof fn law_dangling_link_refused(
    root: Seq<Seq<u8>>,
    input: Seq<char>,
    present: spec_fn(Seq<Seq<u8>>) -> bool,
    canonical: spec_fn(Seq<Seq<u8>>) -> Result<Seq<Seq<u8>>, Seq<char>>,
    lexical: Seq<Seq<u8>>,
)
    requires
        lexical_path(root, encode_utf8(input)) == Some(lexical),
        present(lexical),
        canonical(lexical) is Err,
    ensures
        resolved(root, input, present, canonical) is Err,
{
    assert(lexical.take(lexical.len() as int) =~= lexical);
}

/// Where no symbolic link is met, a path leads where its text says.
pub proof fn law_plain_path_kept(
    root: Seq<Seq<u8>>,
    input: Seq<char>,
    present: spec_fn(Seq<Seq<u8>>) -> bool,
    canonical: spec_fn(Seq<Seq<u8>>) -> Result<Seq<Seq<u8>>, Seq<char>>,
    lexical: Seq<Seq<u8>>,
)
    requires
        lexical_path(root, encode_utf8(input)) == Some(lexical),
        forall|n: nat|
            root.len() <= n <= lexical.len() ==> canonical(#[trigger] lexical.take(n as int)) == Ok::<
                Seq<Seq<u8>>,
                Seq<char>,
            >(lexical.take(n as int)),
        present(root),
    ensures
        resolved(root, input, present, canonical) == Ok::<Seq<Seq<u8>>, Refused>(lexical),
{
    assert(lexical.take(root.len() as int) =~= root) by {
        assert(lexical.subrange(0, root.len() as int) =~= lexical.take(root.len() as int));
    }
    lemma_deepest_from(lexical, lexical.len(), root.len(), present);
    let n = deepest(lexical, lexical.len(), present)->Some_0;
    let at = lexical.take(n as int);
    assert(at.subrange(0, root.len() as int) =~= lexical.subrange(0, root.len() as int));
    assert(at + lexical.skip(n as int) =~= lexical);
}

/// The deepest ancestor is at least as deep as any that exists.
proof fn lemma_deepest_from(
    path: Seq<Seq<u8>>,
    upto: nat,
    known: nat,
    present: spec_fn(Seq<Seq<u8>>) -> bool,
)
    requires
        known <= upto,
        present(path.take(known as int)),
    ensures
        deepest(path, upto, present) matches Some(n) && known <= n <= upto,
    decreases upto,
{
    if !present(path.take(upto as int)) {
        lemma_deepest_from(path, (upto - 1) as nat, known, present);
    }
}

/// A path that is shown relative to the root leads back to the same place, and
/// so does one that is written out in full.
pub proof fn law_shown_path_leads_back(root: Seq<Seq<u8>>, path: Seq<Seq<u8>>)
    requires
        all_names(path),
        within(root, path),
    ensures
        lexical_path(root, Root::relative(root, path)) == Some(path),
        lexical_path(root, written(path)) == Some(path),
{
    let rel = path.skip(root.len() as int);
    assert(all_names(rel)) by {
        assert forall|i: int| 0 <= i < rel.len() implies crate::path::is_name(
            #[trigger] rel[i],
        ) by {
            assert(rel[i] == path[root.len() + i]);
        }
    }
    lemma_components_joined(rel);
    lemma_walk_names(root, rel);
    assert(root + rel =~= path) by {
        assert(path.subrange(0, root.len() as int) == root);
    }
    crate::path::law_written_reads_back(path);
}

/// Where the part of a path that exists really is on a disk.
pub open spec fn found_part(
    root: Seq<Seq<u8>>,
    input: Seq<char>,
    present: spec_fn(Seq<Seq<u8>>) -> bool,
    canonical: spec_fn(Seq<Seq<u8>>) -> Result<Seq<Seq<u8>>, Seq<char>>,
) -> Option<Seq<Seq<u8>>> {
    match lexical_path(root, encode_utf8(input)) {
        None => None,
        Some(lexical) => match deepest(lexical, lexical.len(), present) {
            None => None,
            Some(n) => match canonical(lexical.take(n as int)) {
                Ok(at) => Some(at),
                Err(_) => None,
            },
        },
    }
}

/// Where nothing beyond the first `n` names exists, those are the deepest part.
proof fn lemma_deepest_is(
    path: Seq<Seq<u8>>,
    upto: nat,
    n: nat,
    present: spec_fn(Seq<Seq<u8>>) -> bool,
)
    requires
        n <= upto,
        present(path.take(n as int)),
        forall|k: int| n < k <= upto ==> !present(#[trigger] path.take(k)),
    ensures
        deepest(path, upto, present) == Some(n),
    decreases upto,
{
    if n < upto {
        assert(!present(path.take(upto as int)));
        lemma_deepest_is(path, (upto - 1) as nat, n, present);
    }
}

/// A text that leads to a resolved path resolves to it, on a disk that has not
/// changed: the part that was found is still there and is where it says, and what
/// was missing is still missing.
pub proof fn lemma_resolves_again(
    root: Seq<Seq<u8>>,
    input: Seq<char>,
    present: spec_fn(Seq<Seq<u8>>) -> bool,
    canonical: spec_fn(Seq<Seq<u8>>) -> Result<Seq<Seq<u8>>, Seq<char>>,
    at: Seq<Seq<u8>>,
    p: Seq<Seq<u8>>,
    again: Seq<char>,
)
    requires
        resolved(root, input, present, canonical) == Ok::<Seq<Seq<u8>>, Refused>(p),
        found_part(root, input, present, canonical) == Some(at),
        present(at),
        canonical(at) == Ok::<Seq<Seq<u8>>, Seq<char>>(at),
        forall|k: int| at.len() < k <= p.len() ==> !present(#[trigger] p.take(k)),
        lexical_path(root, encode_utf8(again)) == Some(p),
    ensures
        resolved(root, again, present, canonical) == Ok::<Seq<Seq<u8>>, Refused>(p),
{
    assert(p.take(at.len() as int) =~= at);
    lemma_deepest_is(p, p.len(), at.len(), present);
    assert(at + p.skip(at.len() as int) =~= p);
}

/// How a path is resolved: the deepest part of it that is there is looked up on
/// the disk, and has to lie within the root; the names behind it, which do not
/// exist, are put back as they are.
pub proof fn law_resolution(
    root: Seq<Seq<u8>>,
    input: Seq<char>,
    present: spec_fn(Seq<Seq<u8>>) -> bool,
    canonical: spec_fn(Seq<Seq<u8>>) -> Result<Seq<Seq<u8>>, Seq<char>>,
    lexical: Seq<Seq<u8>>,
    n: nat,
)
    requires
        lexical_path(root, encode_utf8(input)) == Some(lexical),
        n <= lexical.len(),
        present(lexical.take(n as int)),
        forall|k: int| n < k <= lexical.len() ==> !present(#[trigger] lexical.take(k)),
    ensures
        resolved(root, input, present, canonical) == (match canonical(lexical.take(n as int)) {
            Ok(at) => if root.is_prefix_of(at) {
                Ok(at + lexical.skip(n as int))
            } else {
                Err(Refused::Escape(input))
            },
            Err(source) => Err(
                Refused::Io { path: text::utf8_lossy(written(lexical.take(n as int))), source },
            ),
        }),
{
    lemma_deepest_is(lexical, lexical.len(), n, present);
}

/// Where a path leads by its text: from the top where it starts with a separator,
/// and from the root otherwise; anything that does not lie below the root is
/// refused.
pub proof fn law_lexical_path(root: Seq<Seq<u8>>, input: Seq<u8>)
    ensures
        ({
            let from = if input.len() > 0 && input[0] == 47 {
                seq![]
            } else {
                root
            };
            match lexical_path(root, input) {
                Some(p) => walk(from, components(input)) == Some(p) && root.len() <= p.len() && p.take(
                    root.len() as int,
                ) == root,
                None => walk(from, components(input)) matches Some(p) ==> !(root.len() <= p.len()
                    && p.take(root.len() as int) == root),
            }
        }),
{
    let from = if input.len() > 0 && input[0] == 47 {
        seq![]
    } else {
        root
    };
    if let Some(p) = walk(from, components(input)) {
        if root.len() <= p.len() {
            assert(p.subrange(0, root.len() as int) =~= p.take(root.len() as int));
        }
    }
}

/// What is written of a path relative to the root: the names below the root, and
/// a path elsewhere in full.
pub proof fn law_relative(root: Seq<Seq<u8>>, below: Seq<Seq<u8>>, path: Seq<Seq<u8>>)
    ensures
        Root::relative(root, root + below) == joined(below),
        !root.is_prefix_of(path) ==> Root::relative(root, path) == seq![47u8] + joined(path),
{
    let whole = root + below;
    assert(whole.subrange(0, root.len() as int) =~= root);
    assert(whole.skip(root.len() as int) =~= below);
}

/// A refusal names the path as it was given, and passes the reason of the disk on.
pub proof fn law_refusals_name_the_path(input: Seq<char>, source: Seq<char>)
    ensures
        exists|a: Seq<char>| Refused::Escape(input).said() == #[trigger] (a + input),
        Refused::Escape(input).chain() == Refused::Escape(input).said(),
        exists|a: Seq<char>, b: Seq<char>|
            (Refused::Io { path: input, source }).said() == #[trigger] (a + input + b + source),
        (Refused::Io { path: input, source }).said().is_prefix_of(
            (Refused::Io { path: input, source }).chain(),
        ),
{
    assert(Refused::Escape(input).said() == "path escapes the sandbox root: "@ + input);
    let io = Refused::Io { path: input, source };
    assert(io.said() == "cannot resolve "@ + input + ": "@ + source);
    assert(io.chain().subrange(0, io.said().len() as int) =~= io.said());
}

/// A path whose text leads out of the root is refused, and so is one of which not
/// even the top is there.
pub proof fn law_unresolved(
    root: Seq<Seq<u8>>,
    input: Seq<char>,
    present: spec_fn(Seq<Seq<u8>>) -> bool,
    canonical: spec_fn(Seq<Seq<u8>>) -> Result<Seq<Seq<u8>>, Seq<char>>,
)
    requires
        lexical_path(root, encode_utf8(input)) matches Some(lexical) ==> forall|k: int|
            0 <= k <= lexical.len() ==> !present(#[trigger] lexical.take(k)),
    ensures
        resolved(root, input, present, canonical) == Err::<Seq<Seq<u8>>, Refused>(
            Refused::Escape(input),
        ),
{
    if let Some(lexical) = lexical_path(root, encode_utf8(input)) {
        if deepest(lexical, lexical.len(), present) is Some {
            lemma_deepest_is_there(lexical, lexical.len(), present);
        }
    }
}

/// The deepest ancestor is there.
proof fn lemma_deepest_is_there(
    path: Seq<Seq<u8>>,
    upto: nat,
    present: spec_fn(Seq<Seq<u8>>) -> bool,
)
    requires
        deepest(path, upto, present) is Some,
    ensures
        deepest(path, upto, present) matches Some(n) && n <= upto && present(path.take(n as int)),
    decreases upto,
{
    if !present(path.take(upto as int)) {
        lemma_deepest_is_there(path, (upto - 1) as nat, present);
    }
}

} // verus!
