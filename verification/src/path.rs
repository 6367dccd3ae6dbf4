//! Absolute paths as lists of names.
use vstd::prelude::*;

use crate::text;

verus! {

/// The byte that separates the names of a path.
pub const SLASH: u8 = 47;

/// `.`, which names the directory it stands in.
pub open spec fn dot() -> Seq<u8> {
    seq![46u8]
}

/// `..`, which names the parent directory.
pub open spec fn dot_dot() -> Seq<u8> {
    seq![46u8, 46u8]
}

/// A name that can stand in a directory: not empty, no separator in it, and
/// neither `.` nor `..`.
pub open spec fn is_name(n: Seq<u8>) -> bool {
    &&& n.len() > 0
    &&& n != dot()
    &&& n != dot_dot()
    &&& forall|i: int| 0 <= i < n.len() ==> n[i] != SLASH
}

/// Whether every entry of a list is a name.
pub open spec fn all_names(p: Seq<Seq<u8>>) -> bool {
    forall|i: int| 0 <= i < p.len() ==> is_name(#[trigger] p[i])
}

/// The byte strings that a list of byte vectors holds.
pub open spec fn names(v: Seq<Vec<u8>>) -> Seq<Seq<u8>> {
    v.map_values(|n: Vec<u8>| n@)
}

/// How many bytes stand before the first separator; all of them where there is
/// none.
pub open spec fn upto_slash(b: Seq<u8>) -> nat
    decreases b.len(),
{
    if b.len() == 0 || b[0] == SLASH {
        0
    } else {
        1 + upto_slash(b.drop_first())
    }
}

/// `upto_slash` is the only place with no separator before it and one (or the
/// end) at it.
proof fn lemma_upto_slash(b: Seq<u8>, k: int)
    requires
        0 <= k <= b.len(),
        forall|j: int| 0 <= j < k ==> b[j] != SLASH,
        k == b.len() || b[k] == SLASH,
    ensures
        upto_slash(b) == k,
    decreases b.len(),
{
    if k > 0 {
        assert(b[0] != SLASH);
        let rest = b.drop_first();
        assert forall|j: int| 0 <= j < k - 1 implies rest[j] != SLASH by {
            assert(rest[j] == b[j + 1]);
        }
        lemma_upto_slash(rest, k - 1);
    }
}

/// The components of a written path: what stands between the separators, with
/// empty components and `.` left out. `..` stays.
pub open spec fn components(b: Seq<u8>) -> Seq<Seq<u8>>
    decreases b.len(),
{
    let k = upto_slash(b) as int;
    let part = b.take(k);
    let first = if part.len() == 0 || part == dot() {
        seq![]
    } else {
        seq![part]
    };
    if k >= b.len() {
        first
    } else {
        first + components(b.skip(k + 1))
    }
}

/// Follows components from a directory: `..` leads to the parent, anything else
/// into the entry of that name. There is nothing above the top.
pub open spec fn walk(from: Seq<Seq<u8>>, parts: Seq<Seq<u8>>) -> Option<Seq<Seq<u8>>>
    decreases parts.len(),
{
    if parts.len() == 0 {
        Some(from)
    } else if parts[0] == dot_dot() {
        if from.len() == 0 {
            None
        } else {
            walk(from.drop_last(), parts.drop_first())
        }
    } else {
        walk(from.push(parts[0]), parts.drop_first())
    }
}

/// Whether a written path starts at the top.
pub open spec fn is_absolute(b: Seq<u8>) -> bool {
    b.len() > 0 && b[0] == SLASH
}

/// Names joined by separators.
pub open spec fn joined(p: Seq<Seq<u8>>) -> Seq<u8>
    decreases p.len(),
{
    if p.len() == 0 {
        seq![]
    } else if p.len() == 1 {
        p[0]
    } else {
        joined(p.drop_last()).push(SLASH) + p.last()
    }
}

/// An absolute path as it is written.
pub open spec fn written(p: Seq<Seq<u8>>) -> Seq<u8> {
    seq![SLASH] + joined(p)
}

/// An absolute path without `.` or `..` in it.
#[derive(Debug)]
pub struct AbsPath {
    parts: Vec<Vec<u8>>,
}

impl View for AbsPath {
    type V = Seq<Seq<u8>>;

    closed spec fn view(&self) -> Seq<Seq<u8>> {
        names(self.parts@)
    }
}

/// The bytes from `from` up to, not counting, `to`.
pub fn bytes_of(bytes: &[u8], from: usize, to: usize) -> (out: Vec<u8>)
    requires
        from <= to <= bytes@.len(),
    ensures
        out@ == bytes@.subrange(from as int, to as int),
{
    let mut out: Vec<u8> = Vec::new();
    let mut i: usize = from;
    while i < to
        invariant
            from <= i <= to <= bytes@.len(),
            out@ == bytes@.subrange(from as int, i as int),
        decreases to - i,
    {
        out.push(bytes[i]);
        i = i + 1;
        assert(out@ =~= bytes@.subrange(from as int, i as int));
    }
    out
}

/// Adds bytes at the end.
pub fn push_bytes(out: &mut Vec<u8>, more: &[u8])
    ensures
        final(out)@ == old(out)@ + more@,
{
    let mut i: usize = 0;
    let ghost start = out@;
    assert(out@ =~= start + more@.take(0));
    while i < more.len()
        invariant
            0 <= i <= more@.len(),
            out@ == start + more@.take(i as int),
        decreases more@.len() - i,
    {
        out.push(more[i]);
        i = i + 1;
        assert(out@ =~= start + more@.take(i as int));
    }
    assert(more@.take(more@.len() as int) =~= more@);
}

/// Where the component that starts at `from` ends.
fn component_end(bytes: &[u8], from: usize) -> (at: usize)
    requires
        from <= bytes@.len(),
    ensures
        from <= at <= bytes@.len(),
        at - from == upto_slash(bytes@.skip(from as int)),
        forall|j: int| from <= j < at ==> bytes@[j] != SLASH,
        at < bytes@.len() ==> bytes@[at as int] == SLASH,
{
    let mut at: usize = from;
    while at < bytes.len() && bytes[at] != SLASH
        invariant
            from <= at <= bytes@.len(),
            forall|j: int| from <= j < at ==> bytes@[j] != SLASH,
        decreases bytes@.len() - at,
    {
        at = at + 1;
    }
    proof {
        lemma_upto_slash(bytes@.skip(from as int), at - from);
    }
    at
}

/// Follows the components of a written path from a list of names. `None` where
/// they lead above the top.
pub fn walk_path(from: Vec<Vec<u8>>, bytes: &[u8]) -> (out: Option<Vec<Vec<u8>>>)
    requires
        all_names(names(from@)),
    ensures
        match (walk(names(from@), components(bytes@)), out) {
            (Some(p), Some(v)) => names(v@) == p && all_names(p),
            (None, None) => true,
            _ => false,
        },
{
    let mut out = from;
    let mut at: usize = 0;
    assert(bytes@.skip(0) =~= bytes@);
    loop
        invariant
            0 <= at <= bytes@.len(),
            all_names(names(out@)),
            walk(names(out@), components(bytes@.skip(at as int))) == walk(
                names(from@),
                components(bytes@),
            ),
        decreases bytes@.len() - at,
    {
        let end = component_end(bytes, at);
        let part = bytes_of(bytes, at, end);
        let ghost rest = bytes@.skip(at as int);
        let ghost before = names(out@);
        let ghost after = if end < bytes@.len() {
            components(bytes@.skip(end as int + 1))
        } else {
            seq![]
        };
        proof {
            assert(rest.take(end - at) =~= part@);
            if end < bytes@.len() {
                assert(rest.skip(end - at + 1) =~= bytes@.skip(end as int + 1));
            }
        }
        if part.len() == 0 || (part.len() == 1 && part[0] == 46) {
            proof {
                if part@.len() == 1 {
                    assert(part@ =~= dot());
                }
                assert(components(rest) =~= after);
            }
        } else {
            proof {
                if part@.len() == 1 {
                    assert(part@[0] != dot()[0]);
                }
                assert(components(rest) =~= seq![part@] + after);
                assert((seq![part@] + after).drop_first() =~= after);
            }
            if part.len() == 2 && part[0] == 46 && part[1] == 46 {
                assert(part@ =~= dot_dot());
                if out.len() == 0 {
                    return None;
                }
                let _ = out.pop();
                assert(names(out@) =~= before.drop_last());
            } else {
                proof {
                    if part@.len() == 2 {
                        assert(part@[0] != dot_dot()[0] || part@[1] != dot_dot()[1]);
                    }
                    assert(is_name(part@));
                }
                out.push(part);
                assert(names(out@) =~= before.push(part@));
            }
        }
        if end == bytes.len() {
            assert(walk(names(out@), after) == Some(names(out@)));
            return Some(out);
        }
        at = end + 1;
    }
}

impl AbsPath {
    #[verifier::type_invariant]
    pub closed spec fn holds_names(&self) -> bool {
        all_names(names(self.parts@))
    }

    /// The top of the file system.
    pub fn top() -> (p: AbsPath)
        ensures
            p@ == Seq::<Seq<u8>>::empty(),
    {
        let parts: Vec<Vec<u8>> = Vec::new();
        assert(names(parts@) =~= seq![]);
        AbsPath { parts }
    }

    /// A path from its names, where they are names.
    pub fn of_parts(parts: Vec<Vec<u8>>) -> (p: AbsPath)
        requires
            all_names(names(parts@)),
        ensures
            p@ == names(parts@),
    {
        AbsPath { parts }
    }

    /// Reads an absolute path. `None` where it is relative, or holds a `..` that
    /// would lead above the top; a `..` below that is followed.
    pub fn parse(bytes: &[u8]) -> (p: Option<AbsPath>)
        ensures
            match p {
                Some(p) => is_absolute(bytes@) && walk(seq![], components(bytes@)) == Some(p@),
                None => !is_absolute(bytes@) || walk(seq![], components(bytes@)) is None,
            },
    {
        if bytes.len() == 0 || bytes[0] != SLASH {
            return None;
        }
        let start: Vec<Vec<u8>> = Vec::new();
        assert(names(start@) =~= seq![]);
        match walk_path(start, bytes) {
            Some(parts) => Some(AbsPath { parts }),
            None => None,
        }
    }

    /// How many names the path holds.
    pub fn len(&self) -> (n: usize)
        ensures
            n == self@.len(),
    {
        self.parts.len()
    }

    /// The names of the path.
    pub fn parts(&self) -> (parts: &Vec<Vec<u8>>)
        ensures
            names(parts@) == self@,
            all_names(self@),
    {
        proof {
            use_type_invariant(self);
        }
        &self.parts
    }

    /// The path of the first `n` names.
    pub fn prefix(&self, n: usize) -> (p: AbsPath)
        requires
            n <= self@.len(),
        ensures
            p@ == self@.take(n as int),
    {
        let top: Vec<Vec<u8>> = Vec::new();
        assert(names(top@) =~= seq![]);
        let parts = self.extend_with(top, 0, n);
        assert(names(parts@) =~= self@.take(n as int));
        AbsPath { parts }
    }

    /// Adds the names from `from` up to, not counting, `to` to a list of names.
    pub fn extend_with(&self, onto: Vec<Vec<u8>>, from: usize, to: usize) -> (out: Vec<Vec<u8>>)
        requires
            from <= to <= self@.len(),
            all_names(names(onto@)),
        ensures
            names(out@) == names(onto@) + self@.subrange(from as int, to as int),
            all_names(names(out@)),
    {
        proof {
            use_type_invariant(self);
        }
        let mut out = onto;
        let mut i: usize = from;
        assert(names(out@) =~= names(onto@) + self@.subrange(from as int, i as int));
        while i < to
            invariant
                from <= i <= to <= self@.len(),
                names(self.parts@) == self@,
                all_names(self@),
                names(out@) == names(onto@) + self@.subrange(from as int, i as int),
                all_names(names(out@)),
            decreases to - i,
        {
            let part = bytes_of(self.parts[i].as_slice(), 0, self.parts[i].len());
            assert(part@ =~= self@[i as int]);
            let ghost before = names(out@);
            out.push(part);
            i = i + 1;
            assert(names(out@) =~= before.push(part@));
            assert(names(out@) =~= names(onto@) + self@.subrange(from as int, i as int));
        }
        out
    }

    /// A copy of the path.
    pub fn copy(&self) -> (p: AbsPath)
        ensures
            p@ == self@,
    {
        let p = self.prefix(self.parts.len());
        assert(p@ =~= self@);
        p
    }

    /// The path of these names followed by more names.
    pub fn join(&self, tail: &AbsPath, from: usize) -> (p: AbsPath)
        requires
            from <= tail@.len(),
        ensures
            p@ == self@ + tail@.skip(from as int),
    {
        proof {
            use_type_invariant(self);
        }
        let copy = self.copy();
        proof {
            use_type_invariant(&copy);
        }
        let parts = tail.extend_with(copy.parts, from, tail.len());
        assert(names(parts@) =~= self@ + tail@.skip(from as int));
        AbsPath { parts }
    }

    /// Whether the path lies at or below another one.
    pub fn starts_with(&self, base: &AbsPath) -> (b: bool)
        ensures
            b == base@.is_prefix_of(self@),
    {
        if base.parts.len() > self.parts.len() {
            return false;
        }
        let mut i: usize = 0;
        while i < base.parts.len()
            invariant
                0 <= i <= base@.len() <= self@.len(),
                names(self.parts@) == self@,
                names(base.parts@) == base@,
                base@.len() == base.parts@.len(),
                self@.len() == self.parts@.len(),
                forall|j: int| 0 <= j < i ==> base@[j] == self@[j],
            decreases base@.len() - i,
        {
            let ghost mine = self@[i as int];
            let ghost theirs = base@[i as int];
            assert(mine == self.parts@[i as int]@);
            assert(theirs == base.parts@[i as int]@);
            if !text::same_bytes(self.parts[i].as_slice(), base.parts[i].as_slice()) {
                assert(base@.is_prefix_of(self@) ==> self@.subrange(0, base@.len() as int)[i as int]
                    == theirs);
                return false;
            }
            i = i + 1;
        }
        assert(self@.subrange(0, base@.len() as int) =~= base@);
        true
    }

    /// The names from `from` on, joined by separators.
    pub fn join_from(&self, from: usize) -> (out: Vec<u8>)
        requires
            from <= self@.len(),
        ensures
            out@ == joined(self@.skip(from as int)),
    {
        let mut out: Vec<u8> = Vec::new();
        let mut i: usize = from;
        let ghost tail = self@.skip(from as int);
        assert(out@ =~= joined(tail.take(0)));
        while i < self.parts.len()
            invariant
                from <= i <= self@.len(),
                names(self.parts@) == self@,
                self@.len() == self.parts@.len(),
                tail == self@.skip(from as int),
                out@ == joined(tail.take(i - from)),
            decreases self@.len() - i,
        {
            let ghost done = tail.take(i - from);
            let ghost more = tail.take(i - from + 1);
            assert(more.drop_last() =~= done);
            assert(more.last() == self.parts@[i as int]@);
            if i > from {
                out.push(SLASH);
            } else {
                assert(out@ + more.last() =~= more.last());
            }
            push_bytes(&mut out, self.parts[i].as_slice());
            i = i + 1;
        }
        assert(tail.take(tail.len() as int) =~= tail);
        out
    }

    /// The path as it is written.
    pub fn to_bytes(&self) -> (out: Vec<u8>)
        ensures
            out@ == written(self@),
    {
        let mut out: Vec<u8> = Vec::new();
        out.push(SLASH);
        let rest = self.join_from(0);
        push_bytes(&mut out, rest.as_slice());
        assert(self@.skip(0) =~= self@);
        assert(out@ =~= written(self@));
        out
    }

    /// The path as text, for messages.
    pub fn display(&self) -> (s: String)
        ensures
            s@ == text::utf8_lossy(written(self@)),
    {
        let bytes = self.to_bytes();
        text::from_utf8_lossy(bytes.as_slice())
    }
}


/// `upto_slash` lies in the bytes, with no separator before it and one (or the
/// end) at it.
proof fn lemma_upto_slash_is(b: Seq<u8>)
    ensures
        upto_slash(b) <= b.len(),
        forall|j: int| 0 <= j < upto_slash(b) ==> b[j] != SLASH,
        upto_slash(b) < b.len() ==> b[upto_slash(b) as int] == SLASH,
    decreases b.len(),
{
    if b.len() > 0 && b[0] != SLASH {
        let rest = b.drop_first();
        lemma_upto_slash_is(rest);
        assert forall|j: int| 0 <= j < upto_slash(b) implies b[j] != SLASH by {
            if j > 0 {
                assert(rest[j - 1] == b[j]);
            }
        }
    }
}

/// The components of two pieces with a separator between them are those of the
/// pieces.
pub proof fn lemma_components_concat(a: Seq<u8>, b: Seq<u8>)
    ensures
        components(a + seq![SLASH] + b) == components(a) + components(b),
    decreases a.len(),
{
    let whole = a + seq![SLASH] + b;
    let k = upto_slash(a) as int;
    lemma_upto_slash_is(a);
    assert forall|j: int| 0 <= j < k implies whole[j] != SLASH by {
        assert(whole[j] == a[j]);
    }
    assert(whole[k] == SLASH) by {
        if k < a.len() {
            assert(whole[k] == a[k]);
        }
    }
    lemma_upto_slash(whole, k);
    assert(whole.take(k) =~= a.take(k));
    if k < a.len() {
        let rest = a.skip(k + 1);
        assert(whole.skip(k + 1) =~= rest + seq![SLASH] + b);
        lemma_components_concat(rest, b);
        let first = if a.take(k).len() == 0 || a.take(k) == dot() {
            seq![]
        } else {
            seq![a.take(k)]
        };
        assert(first + (components(rest) + components(b)) =~= (first + components(rest))
            + components(b));
    } else {
        assert(whole.skip(k + 1) =~= b);
    }
}

/// The components of a single name are that name.
proof fn lemma_components_name(n: Seq<u8>)
    requires
        is_name(n),
    ensures
        components(n) == seq![n],
{
    lemma_upto_slash(n, n.len() as int);
    assert(n.take(n.len() as int) =~= n);
}

/// Names that were joined come apart into the same names.
pub proof fn lemma_components_joined(p: Seq<Seq<u8>>)
    requires
        all_names(p),
    ensures
        components(joined(p)) == p,
        !is_absolute(joined(p)),
    decreases p.len(),
{
    if p.len() == 0 {
        assert(components(joined(p)) =~= p);
    } else if p.len() == 1 {
        assert(is_name(p[0]));
        lemma_components_name(p[0]);
        assert(seq![p[0]] =~= p);
    } else {
        let front = p.drop_last();
        assert forall|i: int| 0 <= i < front.len() implies is_name(#[trigger] front[i]) by {
            assert(front[i] == p[i]);
        }
        lemma_components_joined(front);
        assert(is_name(p[p.len() - 1]));
        lemma_components_name(p.last());
        lemma_components_concat(joined(front), p.last());
        assert(joined(p) =~= joined(front) + seq![SLASH] + p.last());
        assert(front + seq![p.last()] =~= p);
        assert(front[0] == p[0]);
        lemma_joined_start(front);
        assert(joined(p)[0] == joined(front)[0]);
    }
}

/// Joined names start with the first name, so not with a separator.
proof fn lemma_joined_start(p: Seq<Seq<u8>>)
    requires
        p.len() > 0,
        all_names(p),
    ensures
        joined(p).len() > 0,
        joined(p)[0] != SLASH,
    decreases p.len(),
{
    if p.len() == 1 {
        assert(is_name(p[0]));
    } else {
        let front = p.drop_last();
        assert forall|i: int| 0 <= i < front.len() implies is_name(#[trigger] front[i]) by {
            assert(front[i] == p[i]);
        }
        lemma_joined_start(front);
        assert(joined(p)[0] == joined(front)[0]);
    }
}

/// A path that was written is read back as the same path.
pub proof fn law_written_reads_back(p: Seq<Seq<u8>>)
    requires
        all_names(p),
    ensures
        is_absolute(written(p)),
        components(written(p)) == p,
        walk(seq![], components(written(p))) == Some(p),
{
    let none: Seq<u8> = seq![];
    lemma_components_concat(none, joined(p));
    assert(none + seq![SLASH] + joined(p) =~= written(p));
    lemma_upto_slash(none, 0);
    assert(components(none) =~= seq![]);
    lemma_components_joined(p);
    assert(components(written(p)) =~= p);
    lemma_walk_names(seq![], p);
    assert(Seq::<Seq<u8>>::empty() + p =~= p);
}

/// Names are followed one after the other.
pub proof fn lemma_walk_names(from: Seq<Seq<u8>>, p: Seq<Seq<u8>>)
    requires
        all_names(p),
    ensures
        walk(from, p) == Some(from + p),
    decreases p.len(),
{
    if p.len() == 0 {
        assert(from + p =~= from);
    } else {
        assert(is_name(p[0]));
        let rest = p.drop_first();
        assert forall|i: int| 0 <= i < rest.len() implies is_name(#[trigger] rest[i]) by {
            assert(rest[i] == p[i + 1]);
        }
        lemma_walk_names(from.push(p[0]), rest);
        assert(from.push(p[0]) + rest =~= from + p);
    }
}

/// Names joined in two parts, with a separator between them, are all of them
/// joined.
proof fn lemma_joined_parts(p: Seq<Seq<u8>>, n: int)
    requires
        0 < n < p.len(),
    ensures
        joined(p) == joined(p.take(n)) + seq![SLASH] + joined(p.skip(n)),
    decreases p.len(),
{
    let front = p.drop_last();
    assert(p.len() >= 2);
    if n == p.len() - 1 {
        assert(p.take(n) =~= front);
        assert(p.skip(n) =~= seq![p.last()]);
    } else {
        lemma_joined_parts(front, n);
        assert(front.take(n) =~= p.take(n));
        assert(front.skip(n) =~= p.skip(n).drop_last());
        assert(p.skip(n).last() == p.last());
    }
    assert(joined(p) =~= joined(p.take(n)) + seq![SLASH] + joined(p.skip(n)));
}

/// What follows a separator in a valid UTF-8 text is valid itself.
proof fn lemma_valid_after_slash(a: Seq<u8>, b: Seq<u8>)
    requires
        vstd::utf8::valid_utf8(a + seq![SLASH] + b),
    ensures
        vstd::utf8::valid_utf8(b),
{
    let whole = a + seq![SLASH] + b;
    let at = a.len() as int;
    assert(whole[at] == SLASH);
    vstd::utf8::is_char_boundary_iff_not_is_continuation_byte(whole, at);
    vstd::utf8::valid_utf8_split(whole, at);
    let rest = whole.subrange(at, whole.len() as int);
    assert(rest[0] == SLASH);
    assert(vstd::utf8::pop_first_scalar(rest) =~= b);
}

/// Where a path is written in valid UTF-8, so are its last names.
pub proof fn lemma_valid_tail(p: Seq<Seq<u8>>, n: int)
    requires
        0 <= n <= p.len(),
        vstd::utf8::valid_utf8(written(p)),
    ensures
        vstd::utf8::valid_utf8(joined(p.skip(n))),
{
    let none: Seq<u8> = seq![];
    assert(written(p) =~= none + seq![SLASH] + joined(p));
    lemma_valid_after_slash(none, joined(p));
    if n == p.len() {
        assert(joined(p.skip(n)) =~= none);
    } else if n == 0 {
        assert(p.skip(0) =~= p);
    } else {
        lemma_joined_parts(p, n);
        lemma_valid_after_slash(joined(p.take(n)), joined(p.skip(n)));
    }
}

/// What is followed in two parts is followed as a whole.
proof fn lemma_walk_parts(from: Seq<Seq<u8>>, p: Seq<Seq<u8>>, q: Seq<Seq<u8>>)
    ensures
        walk(from, p + q) == (match walk(from, p) {
            Some(at) => walk(at, q),
            None => None,
        }),
    decreases p.len(),
{
    if p.len() == 0 {
        assert(p + q =~= q);
    } else {
        assert((p + q).drop_first() =~= p.drop_first() + q);
        assert((p + q)[0] == p[0]);
        if p[0] == dot_dot() {
            if from.len() > 0 {
                lemma_walk_parts(from.drop_last(), p.drop_first(), q);
            }
        } else {
            lemma_walk_parts(from.push(p[0]), p.drop_first(), q);
        }
    }
}

/// A name and a `..` behind it lead nowhere; a `..` at the top is refused. A name
/// leads into the entry of that name.
pub proof fn law_parent_leads_back(
    from: Seq<Seq<u8>>,
    name: Seq<u8>,
    rest: Seq<Seq<u8>>,
)
    requires
        is_name(name),
    ensures
        walk(from, seq![name] + rest) == walk(from.push(name), rest),
        walk(from, seq![name, seq![46u8, 46u8]] + rest) == walk(from, rest),
        walk(seq![], seq![seq![46u8, 46u8]] + rest) is None,
        walk(from, seq![]) == Some(from),
{
    assert(dot_dot() =~= seq![46u8, 46u8]);
    let up = seq![46u8, 46u8];
    assert((seq![name] + rest).drop_first() =~= rest);
    let both = seq![name, up] + rest;
    assert(both =~= seq![name] + (seq![up] + rest));
    assert(both.drop_first() =~= seq![up] + rest);
    assert((seq![up] + rest).drop_first() =~= rest);
    assert(from.push(name).drop_last() =~= from);
    assert(walk(from.push(name), seq![up] + rest) == walk(from, rest)) by {
        assert((seq![up] + rest)[0] == up);
    }
    assert(both[0] == name);
}

/// A path that is put together from two is followed as the one after the other,
/// and neither a `.` nor a second separator between them makes a difference.
pub proof fn law_path_in_parts(from: Seq<Seq<u8>>, a: Seq<u8>, b: Seq<u8>)
    ensures
        walk(from, components(a + seq![47u8] + b)) == (match walk(from, components(a)) {
            Some(at) => walk(at, components(b)),
            None => None,
        }),
        components(a + seq![47u8, 47u8] + b) == components(a + seq![47u8] + b),
        components(a + seq![47u8, 46u8, 47u8] + b) == components(a + seq![47u8] + b),
{
    let none: Seq<u8> = seq![];
    lemma_components_concat(a, b);
    lemma_walk_parts(from, components(a), components(b));
    lemma_components_concat(none, b);
    lemma_upto_slash(none, 0);
    assert(components(none) =~= seq![]);
    lemma_components_concat(a, none + seq![SLASH] + b);
    assert(a + seq![SLASH] + (none + seq![SLASH] + b) =~= a + seq![47u8, 47u8] + b);
    assert(components(none) + components(b) =~= components(b));
    lemma_upto_slash(dot(), 1);
    assert(dot().take(1) =~= dot());
    assert(components(dot()) =~= seq![]);
    lemma_components_concat(dot(), b);
    assert(components(dot()) + components(b) =~= components(b));
    lemma_components_concat(a, dot() + seq![SLASH] + b);
    assert(a + seq![SLASH] + (dot() + seq![SLASH] + b) =~= a + seq![47u8, 46u8, 47u8] + b);
}

/// A name is written as it is, and two lists of names with one separator between
/// them.
pub proof fn law_names_are_joined(p: Seq<Seq<u8>>, q: Seq<Seq<u8>>, name: Seq<u8>)
    requires
        p.len() > 0,
        q.len() > 0,
    ensures
        joined(seq![]) == Seq::<u8>::empty(),
        joined(seq![name]) == name,
        joined(p + q) == joined(p) + seq![47u8] + joined(q),
        written(p) == seq![47u8] + joined(p),
{
    let all = p + q;
    lemma_joined_parts(all, p.len() as int);
    assert(all.take(p.len() as int) =~= p);
    assert(all.skip(p.len() as int) =~= q);
}

/// Anything can be a name but nothing at all, `.`, `..`, and what holds a
/// separator. A name that starts with a dot is a name like any other.
pub proof fn law_names(n: Seq<u8>, p: Seq<Seq<u8>>)
    ensures
        is_name(n) <==> n.len() > 0 && n != seq![46u8] && n != seq![46u8, 46u8] && !n.contains(47),
        is_name(n) ==> components(n) == seq![n],
        all_names(p) <==> forall|i: int| 0 <= i < p.len() ==> is_name(#[trigger] p[i]),
{
    if n.contains(47) {
        let i = choose|i: int| 0 <= i < n.len() && n[i] == 47;
        assert(n[i] == SLASH);
    } else {
        assert forall|i: int| 0 <= i < n.len() implies n[i] != SLASH by {
            assert(n.contains(n[i]));
        }
    }
    if is_name(n) {
        lemma_components_name(n);
    }
}

} // verus!
