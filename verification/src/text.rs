//! Text as sequences of characters: the small string operations that the rest
//! of the library is written with.
use vstd::prelude::*;
use vstd::utf8::encode_utf8;

verus! {

/// `String::push` appends one character to the end of the string.
pub assume_specification[ String::push ](s: &mut String, c: char)
    ensures
        final(s)@ == old(s)@.push(c),
;

/// The number of bytes that a text takes in UTF-8.
pub open spec fn byte_len(s: Seq<char>) -> nat {
    encode_utf8(s).len()
}

/// Two texts are the same exactly when their encodings are.
pub proof fn lemma_same_encoding(a: Seq<char>, b: Seq<char>)
    ensures
        encode_utf8(a) == encode_utf8(b) <==> a == b,
{
    vstd::utf8::encode_utf8_decode_utf8(a);
    vstd::utf8::encode_utf8_decode_utf8(b);
}

/// Whether two byte slices hold the same bytes.
pub fn same_bytes(a: &[u8], b: &[u8]) -> (same: bool)
    ensures
        same == (a@ == b@),
{
    if a.len() != b.len() {
        return false;
    }
    let mut i: usize = 0;
    while i < a.len()
        invariant
            a@.len() == b@.len(),
            0 <= i <= a@.len(),
            forall|j: int| 0 <= j < i ==> a@[j] == b@[j],
        decreases a@.len() - i,
    {
        if a[i] != b[i] {
            return false;
        }
        i = i + 1;
    }
    assert(a@ =~= b@);
    true
}

/// Whether two texts are the same.
pub fn same_text(a: &str, b: &str) -> (same: bool)
    ensures
        same == (a@ == b@),
{
    proof {
        lemma_same_encoding(a@, b@);
    }
    same_bytes(a.as_bytes(), b.as_bytes())
}

/// The characters of a text.
pub fn chars_of(s: &str) -> (chars: Vec<char>)
    ensures
        chars@ == s@,
{
    let mut chars: Vec<char> = Vec::new();
    for c in it: s.chars()
        invariant
            it.seq() == s@,
            chars@ == s@.take(it.index() as int),
    {
        chars.push(c);
    }
    assert(s@.take(s@.len() as int) =~= s@);
    chars
}

/// The text made of the characters from `from` up to, not counting, `to`.
pub fn text_of(chars: &Vec<char>, from: usize, to: usize) -> (s: String)
    requires
        from <= to <= chars@.len(),
    ensures
        s@ == chars@.subrange(from as int, to as int),
{
    let mut s = String::new();
    let mut i: usize = from;
    while i < to
        invariant
            from <= i <= to <= chars@.len(),
            s@ == chars@.subrange(from as int, i as int),
        decreases to - i,
    {
        s.push(chars[i]);
        i = i + 1;
        assert(s@ =~= chars@.subrange(from as int, i as int));
    }
    s
}

/// Joins two texts.
pub fn join2(a: &str, b: &str) -> (s: String)
    ensures
        s@ == a@ + b@,
{
    let mut s = a.to_owned();
    s.append(b);
    s
}


/// The characters with the Unicode `White_Space` property.
pub open spec fn is_white(c: char) -> bool {
    let u = c as u32;
    ||| 0x9 <= u <= 0xd
    ||| u == 0x20
    ||| u == 0x85
    ||| u == 0xa0
    ||| u == 0x1680
    ||| 0x2000 <= u <= 0x200a
    ||| u == 0x2028
    ||| u == 0x2029
    ||| u == 0x202f
    ||| u == 0x205f
    ||| u == 0x3000
}

/// Whether a character is white space.
pub fn is_white_space(c: char) -> (white: bool)
    ensures
        white == is_white(c),
{
    let u: u32 = c as u32;
    (0x9 <= u && u <= 0xd) || u == 0x20 || u == 0x85 || u == 0xa0 || u == 0x1680 || (0x2000 <= u
        && u <= 0x200a) || u == 0x2028 || u == 0x2029 || u == 0x202f || u == 0x205f || u == 0x3000
}

/// A text without the white space it starts with.
pub open spec fn trim_start(s: Seq<char>) -> Seq<char>
    decreases s.len(),
{
    if s.len() > 0 && is_white(s[0]) {
        trim_start(s.drop_first())
    } else {
        s
    }
}

/// A text without the white space it ends with.
pub open spec fn trim_end(s: Seq<char>) -> Seq<char>
    decreases s.len(),
{
    if s.len() > 0 && is_white(s.last()) {
        trim_end(s.drop_last())
    } else {
        s
    }
}

/// A text without the white space at its two ends.
pub open spec fn trimmed(s: Seq<char>) -> Seq<char> {
    trim_end(trim_start(s))
}

/// Where a text ends once the white space at its end is left out.
fn end_without_white(chars: &Vec<char>, from: usize) -> (end: usize)
    requires
        from <= chars@.len(),
    ensures
        from <= end <= chars@.len(),
        chars@.subrange(from as int, end as int) == trim_end(chars@.skip(from as int)),
{
    let mut end: usize = chars.len();
    assert(chars@.subrange(from as int, end as int) =~= chars@.skip(from as int));
    while end > from && is_white_space(chars[end - 1])
        invariant
            from <= end <= chars@.len(),
            trim_end(chars@.skip(from as int)) == trim_end(chars@.subrange(from as int, end as int)),
        decreases end,
    {
        let ghost before = chars@.subrange(from as int, end as int);
        end = end - 1;
        assert(before.drop_last() =~= chars@.subrange(from as int, end as int));
        assert(before.last() == chars@[end as int]);
    }
    proof {
        let rest = chars@.subrange(from as int, end as int);
        if rest.len() > 0 {
            assert(rest.last() == chars@[end - 1]);
        }
    }
    end
}

/// Removes the white space at both ends of a text.
pub fn trim(s: &str) -> (t: String)
    ensures
        t@ == trimmed(s@),
{
    let chars = chars_of(s);
    let mut from: usize = 0;
    assert(chars@.skip(0) =~= chars@);
    while from < chars.len() && is_white_space(chars[from])
        invariant
            0 <= from <= chars@.len(),
            trim_start(chars@) == trim_start(chars@.skip(from as int)),
        decreases chars@.len() - from,
    {
        assert(chars@.skip(from as int).drop_first() =~= chars@.skip(from as int + 1));
        from = from + 1;
    }
    let end = end_without_white(&chars, from);
    text_of(&chars, from, end)
}

/// Removes the white space at the end of a text.
pub fn trim_right(s: &str) -> (t: String)
    ensures
        t@ == trim_end(s@),
{
    let chars = chars_of(s);
    let end = end_without_white(&chars, 0);
    assert(chars@.skip(0) =~= chars@);
    text_of(&chars, 0, end)
}

/// The character of a decimal digit.
pub open spec fn digit(d: nat) -> char {
    (48 + d) as char
}

/// A number in decimal, without leading zeros.
pub open spec fn decimal(n: nat) -> Seq<char>
    decreases n,
{
    if n < 10 {
        seq![digit(n)]
    } else {
        decimal(n / 10).push(digit(n % 10))
    }
}

/// A signed number in decimal.
pub open spec fn signed_decimal(n: int) -> Seq<char> {
    if n < 0 {
        seq!['-'] + decimal((-n) as nat)
    } else {
        decimal(n as nat)
    }
}

/// Writes a number in decimal.
pub fn decimal_text(n: u64) -> (s: String)
    ensures
        s@ == decimal(n as nat),
    decreases n,
{
    let mut s = if n < 10 {
        String::new()
    } else {
        decimal_text(n / 10)
    };
    let low: u8 = (n % 10) as u8;
    s.push((48 + low) as char);
    assert(n < 10 ==> s@ =~= seq![digit(n as nat)]);
    s
}

/// Writes a signed number in decimal.
pub fn signed_decimal_text(n: i32) -> (s: String)
    ensures
        s@ == signed_decimal(n as int),
{
    if n < 0 {
        let mut s = String::new();
        s.push('-');
        let magnitude: u64 = (-(n as i64)) as u64;
        let rest = decimal_text(magnitude);
        s.append(rest.as_str());
        assert(s@ =~= seq!['-'] + decimal((-n) as nat));
        s
    } else {
        decimal_text(n as u64)
    }
}

/// Whether a character is an ASCII digit.
pub open spec fn is_digit(c: char) -> bool {
    '0' <= c <= '9'
}

/// The value of a sequence of digits, most significant first.
pub open spec fn digits_value(s: Seq<char>) -> nat
    decreases s.len(),
{
    if s.len() == 0 {
        0
    } else {
        (10 * digits_value(s.drop_last()) + (s.last() as u32 - 48)) as nat
    }
}

/// The digits of a written number: what follows an optional plus sign.
pub open spec fn number_digits(s: Seq<char>) -> Seq<char> {
    if s.len() > 0 && s[0] == '+' {
        s.drop_first()
    } else {
        s
    }
}

/// The number that a text writes down, where it is one: an optional plus sign,
/// then one digit or more.
pub open spec fn number(s: Seq<char>) -> Option<nat> {
    let digits = number_digits(s);
    if digits.len() > 0 && (forall|i: int| 0 <= i < digits.len() ==> is_digit(#[trigger] digits[i])) {
        Some(digits_value(digits))
    } else {
        None
    }
}

/// Leading digits never make a number smaller.
proof fn lemma_digits_grow(s: Seq<char>, k: int)
    requires
        0 <= k <= s.len(),
        forall|i: int| 0 <= i < s.len() ==> is_digit(#[trigger] s[i]),
    ensures
        digits_value(s.take(k)) <= digits_value(s),
    decreases s.len() - k,
{
    if k < s.len() {
        lemma_digits_grow(s, k + 1);
        assert(s.take(k + 1).drop_last() =~= s.take(k));
        assert(s.take(k + 1).last() == s[k]);
        assert(is_digit(s[k]));
    } else {
        assert(s.take(k) =~= s);
    }
}

/// Reads a number no greater than `max`.
pub fn parse_number(s: &str, max: u64) -> (n: Option<u64>)
    ensures
        n == (match number(s@) {
            Some(v) if v <= max => Some(v as u64),
            _ => None::<u64>,
        }),
{
    let chars = chars_of(s);
    let from: usize = if chars.len() > 0 && chars[0] == '+' {
        1
    } else {
        0
    };
    let ghost digits = number_digits(s@);
    assert(digits =~= chars@.skip(from as int));
    if from == chars.len() {
        return None;
    }
    let mut value: u64 = 0;
    let mut i: usize = from;
    while i < chars.len()
        invariant
            from <= i <= chars@.len(),
            from < chars@.len(),
            digits == number_digits(s@),
            digits == chars@.skip(from as int),
            value <= max,
            value == digits_value(digits.take(i - from)),
            forall|j: int| 0 <= j < i - from ==> is_digit(#[trigger] digits[j]),
        decreases chars@.len() - i,
    {
        let c = chars[i];
        assert(digits[i - from] == c);
        if c < '0' || '9' < c {
            assert(!is_digit(digits[i - from]));
            return None;
        }
        let d: u64 = (c as u32 - 48) as u64;
        proof {
            assert(digits.take(i - from + 1).drop_last() =~= digits.take(i - from));
            assert(digits.take(i - from + 1).last() == c);
        }
        let wide: u128 = 10 * (value as u128) + (d as u128);
        if wide > max as u128 {
            proof {
                if forall|j: int| 0 <= j < digits.len() ==> is_digit(#[trigger] digits[j]) {
                    lemma_digits_grow(digits, i - from + 1);
                }
            }
            return None;
        }
        value = wide as u64;
        i = i + 1;
    }
    assert(digits.take(digits.len() as int) =~= digits);
    Some(value)
}


/// A text with spaces put before it until it is `width` characters long.
pub open spec fn padded(s: Seq<char>, width: nat) -> Seq<char> {
    if s.len() >= width {
        s
    } else {
        Seq::new((width - s.len()) as nat, |i: int| ' ') + s
    }
}

/// Puts spaces before a text until it is `width` characters long.
pub fn pad_left(s: &str, width: usize) -> (t: String)
    ensures
        t@ == padded(s@, width as nat),
{
    let len: usize = s.unicode_len();
    let mut t = String::new();
    let mut have: usize = len;
    while have < width
        invariant
            len <= have,
            len == s@.len(),
            len <= width ==> have <= width,
            have > width ==> have == len,
            t@ == Seq::new((have - len) as nat, |i: int| ' '),
        decreases width - have,
    {
        t.push(' ');
        have = have + 1;
        assert(t@ =~= Seq::new((have - len) as nat, |i: int| ' '));
    }
    t.append(s);
    assert(t@ =~= padded(s@, width as nat));
    t
}

/// How many characters of a text stand before the first `c`; all of them where
/// there is none.
pub open spec fn until(s: Seq<char>, c: char) -> nat
    decreases s.len(),
{
    if s.len() == 0 || s[0] == c {
        0
    } else {
        1 + until(s.drop_first(), c)
    }
}

/// `until` is the only place with no `c` before it and one (or the end) at it.
pub proof fn lemma_until(s: Seq<char>, c: char, k: int)
    requires
        0 <= k <= s.len(),
        forall|j: int| 0 <= j < k ==> s[j] != c,
        k == s.len() || s[k] == c,
    ensures
        until(s, c) == k,
    decreases s.len(),
{
    if k > 0 {
        assert(s[0] != c);
        let rest = s.drop_first();
        assert forall|j: int| 0 <= j < k - 1 implies rest[j] != c by {
            assert(rest[j] == s[j + 1]);
        }
        lemma_until(rest, c, k - 1);
    }
}

/// The place of the first `c` at or after `from`, or the end of the text.
pub fn find_char(chars: &Vec<char>, c: char, from: usize) -> (at: usize)
    requires
        from <= chars@.len(),
    ensures
        from <= at <= chars@.len(),
        at - from == until(chars@.skip(from as int), c),
        at < chars@.len() ==> chars@[at as int] == c,
{
    let mut at: usize = from;
    while at < chars.len() && chars[at] != c
        invariant
            from <= at <= chars@.len(),
            forall|j: int| from <= j < at ==> chars@[j] != c,
        decreases chars@.len() - at,
    {
        at = at + 1;
    }
    proof {
        lemma_until(chars@.skip(from as int), c, at - from);
    }
    at
}

/// The texts that a list of strings holds.
pub open spec fn views(v: Seq<String>) -> Seq<Seq<char>> {
    v.map_values(|t: String| t@)
}

/// A line without the carriage return it may end in.
pub open spec fn without_cr(s: Seq<char>) -> Seq<char> {
    if s.len() > 0 && s.last() == '\r' {
        s.drop_last()
    } else {
        s
    }
}

/// The lines of a text. A line ends in a newline, which may follow a carriage
/// return; neither belongs to it. What follows the last newline is a line too,
/// unless it is empty.
pub open spec fn lines(s: Seq<char>) -> Seq<Seq<char>>
    decreases s.len(),
{
    let k = until(s, '\n') as int;
    if s.len() == 0 {
        seq![]
    } else if k >= s.len() {
        seq![s]
    } else {
        seq![without_cr(s.take(k))] + lines(s.skip(k + 1))
    }
}

/// Splits a text into its lines.
pub fn split_lines(s: &str) -> (out: Vec<String>)
    ensures
        views(out@) == lines(s@),
{
    let chars = chars_of(s);
    let mut out: Vec<String> = Vec::new();
    let mut from: usize = 0;
    assert(chars@.skip(0) =~= chars@);
    assert(views(out@) + lines(chars@) =~= lines(chars@));
    while from < chars.len()
        invariant
            0 <= from <= chars@.len(),
            views(out@) + lines(chars@.skip(from as int)) == lines(chars@),
        decreases chars@.len() - from,
    {
        let at = find_char(&chars, '\n', from);
        let ghost rest = chars@.skip(from as int);
        let ghost done = views(out@);
        if at == chars.len() {
            let line = text_of(&chars, from, at);
            out.push(line);
            from = at;
            proof {
                assert(line@ =~= rest);
                assert(views(out@) =~= done.push(line@));
                assert(lines(chars@.skip(from as int)) =~= seq![]);
                assert(views(out@) + lines(chars@.skip(from as int)) =~= done + seq![rest]);
            }
        } else {
            let end: usize = if at > from && chars[at - 1] == '\r' {
                at - 1
            } else {
                at
            };
            let line = text_of(&chars, from, end);
            out.push(line);
            proof {
                let k = (at - from) as int;
                assert(rest.take(k) =~= chars@.subrange(from as int, at as int));
                assert(line@ =~= without_cr(rest.take(k)));
                assert(rest.skip(k + 1) =~= chars@.skip(at as int + 1));
                assert(views(out@) =~= done.push(line@));
                assert(done + (seq![line@] + lines(rest.skip(k + 1))) =~= done.push(line@) + lines(
                    chars@.skip(at as int + 1),
                ));
            }
            from = at + 1;
        }
    }
    assert(lines(chars@.skip(from as int)) =~= seq![]);
    assert(views(out@) + lines(chars@.skip(from as int)) =~= views(out@));
    out
}

/// The items of a comma-separated list: what stands between the commas, without
/// the white space around it, where anything is left.
pub open spec fn list_items(s: Seq<char>) -> Seq<Seq<char>>
    decreases s.len(),
    via list_items_shrink
{
    let k = until(s, ',') as int;
    let item = trimmed(s.take(k));
    let first = if item.len() > 0 {
        seq![item]
    } else {
        seq![]
    };
    if k >= s.len() {
        first
    } else {
        first + list_items(s.skip(k + 1))
    }
}

#[via_fn]
proof fn list_items_shrink(s: Seq<char>) {
}

/// Reads a comma-separated list.
pub fn split_list(s: &str) -> (out: Vec<String>)
    ensures
        views(out@) == list_items(s@),
{
    let chars = chars_of(s);
    let mut out: Vec<String> = Vec::new();
    let mut from: usize = 0;
    assert(chars@.skip(0) =~= chars@);
    assert(views(out@) + list_items(chars@) =~= list_items(chars@));
    loop
        invariant
            0 <= from <= chars@.len(),
            views(out@) + list_items(chars@.skip(from as int)) == list_items(chars@),
            chars@ == s@,
        decreases chars@.len() - from,
    {
        let at = find_char(&chars, ',', from);
        let raw = text_of(&chars, from, at);
        let item = trim(raw.as_str());
        let ghost rest = chars@.skip(from as int);
        let ghost done = views(out@);
        let ghost first = if item@.len() > 0 {
            seq![item@]
        } else {
            seq![]
        };
        assert(rest.take(at - from) =~= raw@);
        if !item.as_str().is_empty() {
            out.push(item);
        }
        assert(views(out@) =~= done + first);
        if at == chars.len() {
            assert(list_items(rest) == first);
            return out;
        }
        proof {
            assert(rest.skip(at - from + 1) =~= chars@.skip(at as int + 1));
            assert(done + (first + list_items(rest.skip(at - from + 1))) =~= (done + first)
                + list_items(chars@.skip(at as int + 1)));
        }
        from = at + 1;
    }
}

/// Whether a text holds another one at a place.
pub open spec fn stands(s: Seq<char>, needle: Seq<char>, k: int) -> bool {
    0 <= k && k + needle.len() <= s.len() && s.subrange(k, k + needle.len()) == needle
}

/// The places at which a text holds another one. They may overlap.
pub open spec fn places(s: Seq<char>, needle: Seq<char>) -> Set<int> {
    Set::new(|k: int| stands(s, needle, k))
}

/// At how many places a text holds another one.
pub open spec fn count_matches(s: Seq<char>, needle: Seq<char>) -> nat {
    places(s, needle).len()
}

/// The places before `end`.
spec fn places_before(s: Seq<char>, needle: Seq<char>, end: int) -> Set<int> {
    Set::new(|k: int| k < end && stands(s, needle, k))
}

/// One step further, there is one place more or none.
proof fn lemma_places_step(s: Seq<char>, needle: Seq<char>, end: int)
    requires
        0 <= end,
        places_before(s, needle, end).finite(),
    ensures
        places_before(s, needle, end + 1).finite(),
        places_before(s, needle, end + 1).len() == places_before(s, needle, end).len() + (
        if stands(s, needle, end) {
            1int
        } else {
            0int
        }),
{
    let before = places_before(s, needle, end);
    if stands(s, needle, end) {
        assert(places_before(s, needle, end + 1) =~= before.insert(end));
    } else {
        assert(places_before(s, needle, end + 1) =~= before);
    }
}

/// There are finitely many places.
proof fn lemma_places_finite(s: Seq<char>, needle: Seq<char>, end: int)
    requires
        0 <= end,
    ensures
        places_before(s, needle, end).finite(),
    decreases end,
{
    if end == 0 {
        assert(places_before(s, needle, 0) =~= Set::<int>::empty());
    } else {
        lemma_places_finite(s, needle, end - 1);
        lemma_places_step(s, needle, end - 1);
    }
}

/// The count is one exactly where there is one place and no other.
pub proof fn lemma_one_place(s: Seq<char>, needle: Seq<char>)
    ensures
        count_matches(s, needle) == 1 <==> exists|k: int| #[trigger]
            stands(s, needle, k) && forall|j: int| #[trigger] stands(s, needle, j) ==> j == k,
{
    let all = places(s, needle);
    lemma_places_finite(s, needle, s.len() as int + 1);
    assert(all =~= places_before(s, needle, s.len() as int + 1));
    if all.len() == 1 {
        let k = all.choose();
        assert(all.contains(k));
        assert(all.remove(k).len() == 0);
        assert forall|j: int| #[trigger] stands(s, needle, j) implies j == k by {
            if j != k {
                assert(all.remove(k).contains(j));
            }
        }
        assert(stands(s, needle, k));
    }
    if exists|k: int| #[trigger]
        stands(s, needle, k) && forall|j: int| #[trigger] stands(s, needle, j) ==> j == k {
        let k = choose|k: int| #[trigger]
            stands(s, needle, k) && forall|j: int| #[trigger] stands(s, needle, j) ==> j == k;
        assert(all =~= Set::<int>::empty().insert(k));
    }
}

/// The count is zero exactly where there is no place.
pub proof fn lemma_no_place(s: Seq<char>, needle: Seq<char>)
    ensures
        count_matches(s, needle) == 0 <==> !exists|k: int| #[trigger] stands(s, needle, k),
{
    let all = places(s, needle);
    lemma_places_finite(s, needle, s.len() as int + 1);
    assert(all =~= places_before(s, needle, s.len() as int + 1));
    if all.len() == 0 {
        assert forall|k: int| !#[trigger] stands(s, needle, k) by {
            assert(all.contains(k) ==> all.remove(k).len() + 1 == 0);
        }
    } else {
        let k = all.choose();
        assert(all.contains(k));
        assert(stands(s, needle, k));
    }
}

/// Whether `needle` stands in `chars` at `at`.
fn stands_at(chars: &Vec<char>, needle: &Vec<char>, at: usize) -> (b: bool)
    requires
        at <= chars@.len(),
    ensures
        b == stands(chars@, needle@, at as int),
{
    if needle.len() > chars.len() - at {
        return false;
    }
    let ghost here = chars@.subrange(at as int, at + needle@.len());
    let size: usize = chars.len();
    let mut i: usize = 0;
    while i < needle.len()
        invariant
            0 <= i <= needle@.len(),
            at + needle@.len() <= chars@.len() == size,
            here == chars@.subrange(at as int, at + needle@.len()),
            forall|j: int| 0 <= j < i ==> chars@[at + j] == needle@[j],
        decreases needle@.len() - i,
    {
        if chars[at + i] != needle[i] {
            assert(here[i as int] != needle@[i as int]);
            return false;
        }
        i = i + 1;
    }
    assert(here =~= needle@);
    true
}

/// Finds the first place at which a text holds another one.
pub fn find_text(chars: &Vec<char>, needle: &Vec<char>) -> (at: Option<usize>)
    ensures
        match at {
            Some(i) => stands(chars@, needle@, i as int) && forall|j: int|
                0 <= j < i ==> !#[trigger] stands(chars@, needle@, j),
            None => forall|j: int| !#[trigger] stands(chars@, needle@, j),
        },
{
    let mut at: usize = 0;
    loop
        invariant
            0 <= at <= chars@.len(),
            forall|j: int| 0 <= j < at ==> !#[trigger] stands(chars@, needle@, j),
        decreases chars@.len() - at,
    {
        if stands_at(chars, needle, at) {
            return Some(at);
        }
        if at == chars.len() {
            return None;
        }
        at = at + 1;
    }
}

/// Counts the places at which a text holds another one.
pub fn count_text(chars: &Vec<char>, needle: &Vec<char>) -> (n: usize)
    requires
        needle@.len() > 0,
    ensures
        n == count_matches(chars@, needle@),
{
    let size: usize = chars.len();
    let mut n: usize = 0;
    let mut at: usize = 0;
    assert(places_before(chars@, needle@, 0) =~= Set::<int>::empty());
    while at < size
        invariant
            0 <= at <= chars@.len() == size,
            n <= at,
            places_before(chars@, needle@, at as int).finite(),
            n == places_before(chars@, needle@, at as int).len(),
        decreases size - at,
    {
        proof {
            lemma_places_step(chars@, needle@, at as int);
        }
        if stands_at(chars, needle, at) {
            n = n + 1;
        }
        at = at + 1;
    }
    assert(places_before(chars@, needle@, at as int) =~= places(chars@, needle@));
    n
}

/// What marks a text that was cut short.
pub open spec fn cut_mark() -> Seq<char> {
    "\n... [truncated]"@
}

/// Whether a text can be cut after `max` bytes: it is no longer than that, or a
/// character starts there.
pub open spec fn can_cut(s: Seq<char>, max: nat) -> bool {
    byte_len(s) <= max || vstd::utf8::is_char_boundary(encode_utf8(s), max as int)
}

/// A text cut after `max` bytes, with a mark that says so, where it is longer.
pub open spec fn truncated(s: Seq<char>, max: nat) -> Seq<char> {
    if byte_len(s) <= max {
        s
    } else {
        vstd::utf8::decode_utf8(encode_utf8(s).take(max as int)) + cut_mark()
    }
}

/// Cuts a text after `max_output` bytes.
pub fn truncate(text: String, max_output: usize) -> (out: String)
    requires
        can_cut(text@, max_output as nat),
    ensures
        out@ == truncated(text@, max_output as nat),
{
    let bytes_len: usize = text.as_str().as_bytes().len();
    if bytes_len <= max_output {
        return text;
    }
    let (head, _rest) = text.as_str().split_at(max_output);
    proof {
        vstd::utf8::encode_utf8_decode_utf8(head@);
        assert(encode_utf8(text@).subrange(0, max_output as int) =~= encode_utf8(text@).take(
            max_output as int,
        ));
    }
    join2(head, "\n... [truncated]")
}

/// A text of more than `limit` characters, cut there with its size in bytes put
/// behind it; any other text as it is.
pub open spec fn elided(s: Seq<char>, limit: nat) -> Seq<char> {
    if s.len() > limit {
        s.take(limit as int) + "... ["@ + decimal(byte_len(s)) + " bytes]"@
    } else {
        s
    }
}

/// Shortens a text to `limit` characters.
pub fn elide(text: &str, limit: usize) -> (out: String)
    ensures
        out@ == elided(text@, limit as nat),
{
    let chars = chars_of(text);
    if chars.len() > limit {
        let mut out = text_of(&chars, 0, limit);
        assert(out@ =~= text@.take(limit as int));
        let size = decimal_text(text.as_bytes().len() as u64);
        out.append("... [");
        out.append(size.as_str());
        out.append(" bytes]");
        out
    } else {
        text.to_owned()
    }
}

/// What `String::from_utf8_lossy` makes of a byte sequence that is not UTF-8.
pub uninterp spec fn utf8_repaired(bytes: Seq<u8>) -> Seq<char>;

/// The text that a byte sequence is shown as: what it encodes, where it is UTF-8.
pub open spec fn utf8_lossy(bytes: Seq<u8>) -> Seq<char> {
    if vstd::utf8::valid_utf8(bytes) {
        vstd::utf8::decode_utf8(bytes)
    } else {
        utf8_repaired(bytes)
    }
}

/// `String::from_utf8_lossy`: the text that the bytes encode, with replacement
/// characters where they are not UTF-8. Valid UTF-8 is decoded as it is; how many
/// replacement characters stand for a broken stretch is left to the name.
#[verifier::external_body]
pub(crate) fn from_utf8_lossy(bytes: &[u8]) -> (s: String)
    ensures
        vstd::utf8::valid_utf8(bytes@) ==> s@ == vstd::utf8::decode_utf8(bytes@),
        !vstd::utf8::valid_utf8(bytes@) ==> s@ == utf8_repaired(bytes@),
{
    String::from_utf8_lossy(bytes).into_owned()
}

/// Trimming takes nothing but white space away, at the two ends, and leaves none
/// there: what is left stands in the text as it is.
pub proof fn law_trimmed(s: Seq<char>)
    ensures
        exists|i: int, j: int|
            0 <= i <= j <= s.len() && trimmed(s) == #[trigger] s.subrange(i, j) && (forall|k: int|
                0 <= k < i ==> is_white(#[trigger] s[k])) && (forall|k: int|
                j <= k < s.len() ==> is_white(#[trigger] s[k])),
        trimmed(s).len() > 0 ==> !is_white(trimmed(s)[0]) && !is_white(trimmed(s).last()),
{
    let rest = trim_start(s);
    lemma_trim_start(s);
    let i = (s.len() - rest.len()) as int;
    law_trimmed_end(rest);
    let n = choose|n: int|
        0 <= n <= rest.len() && trim_end(rest) == #[trigger] rest.take(n) && forall|k: int|
            n <= k < rest.len() ==> is_white(#[trigger] rest[k]);
    assert(s.subrange(i, i + n) =~= rest.take(n));
    assert forall|k: int| i + n <= k < s.len() implies is_white(#[trigger] s[k]) by {
        assert(rest[k - i] == s[k]);
    }
    if trimmed(s).len() > 0 {
        assert(trimmed(s)[0] == rest[0]);
    }
}

/// What is left of a text without the white space it starts with is its end.
proof fn lemma_trim_start(s: Seq<char>)
    ensures
        trim_start(s).len() <= s.len(),
        trim_start(s) == s.skip(s.len() - trim_start(s).len()),
        forall|k: int| 0 <= k < s.len() - trim_start(s).len() ==> is_white(#[trigger] s[k]),
        trim_start(s).len() > 0 ==> !is_white(trim_start(s)[0]),
    decreases s.len(),
{
    if s.len() > 0 && is_white(s[0]) {
        let rest = s.drop_first();
        lemma_trim_start(rest);
        assert(trim_start(s) =~= s.skip(s.len() - trim_start(s).len()));
        assert forall|k: int| 0 <= k < s.len() - trim_start(s).len() implies is_white(
            #[trigger] s[k],
        ) by {
            if k > 0 {
                assert(rest[k - 1] == s[k]);
            }
        }
    } else {
        assert(s.skip(0) =~= s);
    }
}

/// Trimming the end takes nothing but white space away, and leaves none there.
pub proof fn law_trimmed_end(s: Seq<char>)
    ensures
        exists|n: int|
            0 <= n <= s.len() && trim_end(s) == #[trigger] s.take(n) && forall|k: int|
                n <= k < s.len() ==> is_white(#[trigger] s[k]),
        trim_end(s).len() > 0 ==> !is_white(trim_end(s).last()),
    decreases s.len(),
{
    if s.len() > 0 && is_white(s.last()) {
        let front = s.drop_last();
        law_trimmed_end(front);
        let n = choose|n: int|
            0 <= n <= front.len() && trim_end(front) == #[trigger] front.take(n) && forall|k: int|
                n <= k < front.len() ==> is_white(#[trigger] front[k]);
        assert(s.take(n) =~= front.take(n));
        assert forall|k: int| n <= k < s.len() implies is_white(#[trigger] s[k]) by {
            if k < front.len() {
                assert(front[k] == s[k]);
            }
        }
    } else {
        assert(s.take(s.len() as int) =~= s);
    }
}

/// A number that was written is read back: it is made of digits, without zeros
/// in front, and no other number is written in the same way.
pub proof fn law_decimal_reads_back(n: nat)
    ensures
        number(decimal(n)) == Some(n),
        decimal(n).len() > 0,
        forall|i: int| 0 <= i < decimal(n).len() ==> '0' <= #[trigger] decimal(n)[i] <= '9',
        decimal(n)[0] == '0' ==> n == 0 && decimal(n).len() == 1,
        forall|m: nat| #[trigger] decimal(m) == decimal(n) ==> m == n,
{
    lemma_decimal_value(n);
    assert forall|m: nat| #[trigger] decimal(m) == decimal(n) implies m == n by {
        lemma_decimal_value(m);
    }
    assert(is_digit(decimal(n)[0]));
}

/// The digits of a number stand for it.
proof fn lemma_decimal_value(n: nat)
    ensures
        digits_value(decimal(n)) == n,
        decimal(n).len() > 0,
        forall|i: int| 0 <= i < decimal(n).len() ==> is_digit(#[trigger] decimal(n)[i]),
        decimal(n)[0] == '0' ==> n == 0 && decimal(n).len() == 1,
    decreases n,
{
    let s = decimal(n);
    let low = n % 10;
    assert(digit(low) as u32 == 48 + low);
    if n < 10 {
        assert(s.drop_last() =~= seq![]);
        assert(digits_value(s.drop_last()) == 0);
    } else {
        lemma_decimal_value(n / 10);
        assert(s.drop_last() =~= decimal(n / 10));
        assert(s[0] == decimal(n / 10)[0]);
        assert(n == 10 * (n / 10) + n % 10);
    }
}

/// The last digit of a number is what is left of it by ten; the others are those
/// of the number without it.
pub proof fn law_decimal_by_digits(n: nat, d: nat)
    requires
        d < 10,
    ensures
        decimal(d) == seq![(48 + d) as char],
        n > 0 ==> decimal(10 * n + d) == decimal(n).push((48 + d) as char),
{
    if n > 0 {
        assert((10 * n + d) / 10 == n);
        assert((10 * n + d) % 10 == d);
    }
}

/// Two signed numbers that are written in the same way are the same, and the sign
/// of a negative one is a hyphen in front.
pub proof fn law_signed_decimal(a: int, b: int)
    ensures
        signed_decimal(a) == signed_decimal(b) ==> a == b,
        signed_decimal(a)[0] == '-' <==> a < 0,
        a >= 0 ==> signed_decimal(a) == decimal(a as nat),
        a > 0 ==> signed_decimal(-a) == seq!['-'] + decimal(a as nat),
{
    law_decimal_reads_back((if a < 0 {
        -a
    } else {
        a
    }) as nat);
    law_decimal_reads_back((if b < 0 {
        -b
    } else {
        b
    }) as nat);
    if a < 0 && b < 0 && signed_decimal(a) == signed_decimal(b) {
        assert(signed_decimal(a).drop_first() =~= decimal((-a) as nat));
        assert(signed_decimal(b).drop_first() =~= decimal((-b) as nat));
    }
}

/// A number is read digit by digit; a plus sign in front changes nothing, and
/// nothing else than digits is read.
pub proof fn law_number_by_digits(s: Seq<char>, c: char)
    ensures
        number(seq![]) is None,
        s.len() == 0 && '0' <= c <= '9' ==> number(s.push(c)) == Some((c as u32 - 48) as nat),
        s.len() > 0 && '0' <= c <= '9' ==> number(s.push(c)) == (match number(s) {
            Some(n) => Some((10 * n + (c as u32 - 48)) as nat),
            None => if s == seq!['+'] {
                Some((c as u32 - 48) as nat)
            } else {
                None
            },
        }),
        s.len() > 0 && !('0' <= c <= '9') ==> number(s.push(c)) is None,
        s.len() > 0 && s[0] != '+' ==> number(seq!['+'] + s) == number(s),
{
    let t = s.push(c);
    let plain: Seq<char> = seq![];
    assert(number_digits(plain) =~= plain);
    assert(number_digits(seq!['+'] + s) =~= s);
    let d = number_digits(s);
    let e = number_digits(t);
    if s.len() > 0 {
        assert(e =~= d.push(c));
        assert(e.drop_last() =~= d);
        assert(e[d.len() as int] == c);
        if '0' <= c <= '9' {
            if forall|i: int| 0 <= i < d.len() ==> is_digit(#[trigger] d[i]) {
                assert forall|i: int| 0 <= i < e.len() implies is_digit(#[trigger] e[i]) by {
                    if i < d.len() {
                        assert(e[i] == d[i]);
                    }
                }
            } else {
                let i = choose|i: int| 0 <= i < d.len() && !is_digit(#[trigger] d[i]);
                assert(!is_digit(e[i]));
            }
            if d.len() == 0 {
                assert(s =~= seq!['+']);
                assert(digits_value(d) == 0);
            }
            if s == seq!['+'] {
                assert(d =~= plain);
            }
        } else {
            assert(!is_digit(e[d.len() as int]));
        }
    } else {
        assert(t =~= seq![c]);
        if '0' <= c <= '9' {
            assert(e =~= seq![c]);
            assert(e.drop_last() =~= plain);
            assert(digits_value(plain) == 0);
        }
    }
}

/// A padded text is as wide as asked, unless it is wider by itself: it ends in
/// the text, and nothing but spaces stands before that.
pub proof fn law_padded(s: Seq<char>, width: nat)
    ensures
        padded(s, width).len() == if s.len() >= width {
            s.len()
        } else {
            width
        },
        padded(s, width).skip(padded(s, width).len() - s.len()) == s,
        forall|i: int|
            0 <= i < padded(s, width).len() - s.len() ==> #[trigger] padded(s, width)[i] == ' ',
{
    assert(padded(s, width).skip(padded(s, width).len() - s.len()) =~= s);
}

/// Lines are taken off the front of a text one by one, each as it stands up to
/// its line break, which is a newline or a carriage return and a newline. What
/// follows the last newline is a line, unless it is empty.
pub proof fn law_lines(line: Seq<char>, rest: Seq<char>)
    requires
        !line.contains('\n'),
    ensures
        lines(seq![]) == Seq::<Seq<char>>::empty(),
        line.len() > 0 ==> lines(line) == seq![line],
        line.len() == 0 || line.last() != '\r' ==> lines(line + seq!['\n'] + rest) == seq![line]
            + lines(rest),
        lines(line + seq!['\r', '\n'] + rest) == seq![line] + lines(rest),
{
    assert forall|j: int| 0 <= j < line.len() implies line[j] != '\n' by {
        assert(line.contains(line[j]));
    }
    lemma_until(line, '\n', line.len() as int);
    let one = line + seq!['\n'] + rest;
    let n = line.len() as int;
    lemma_until(one, '\n', n);
    assert(one.take(n) =~= line);
    assert(one.skip(n + 1) =~= rest);
    let two = line + seq!['\r', '\n'] + rest;
    lemma_until(two, '\n', n + 1);
    assert(two.take(n + 1) =~= line.push('\r'));
    assert(line.push('\r').drop_last() =~= line);
    assert(two.skip(n + 2) =~= rest);
}

/// A text without commas is one item of a list, without the white space around
/// it, or none where it is blank; a comma parts two lists.
pub proof fn law_list_items(item: Seq<char>, rest: Seq<char>)
    requires
        !item.contains(','),
    ensures
        list_items(item) == if trimmed(item).len() > 0 {
            seq![trimmed(item)]
        } else {
            seq![]
        },
        list_items(item + seq![','] + rest) == list_items(item) + list_items(rest),
{
    assert forall|j: int| 0 <= j < item.len() implies item[j] != ',' by {
        assert(item.contains(item[j]));
    }
    let n = item.len() as int;
    lemma_until(item, ',', n);
    assert(item.take(n) =~= item);
    let whole = item + seq![','] + rest;
    lemma_until(whole, ',', n);
    assert(whole.take(n) =~= item);
    assert(whole.skip(n + 1) =~= rest);
}

/// A text holds another one exactly where it can be taken apart before and behind
/// it.
pub proof fn law_stands(s: Seq<char>, needle: Seq<char>, k: int)
    ensures
        stands(s, needle, k) <==> exists|before: Seq<char>, after: Seq<char>|
            s == #[trigger] (before + needle + after) && before.len() == k,
{
    if stands(s, needle, k) {
        let before = s.take(k);
        let after = s.skip(k + needle.len());
        assert(s =~= before + needle + after) by {
            assert forall|i: int| 0 <= i < s.len() implies s[i] == (before + needle + after)[i] by {
                if k <= i < k + needle.len() {
                    assert(s.subrange(k, k + needle.len())[i - k] == s[i]);
                }
            }
        }
        assert(before.len() == k);
    }
    if exists|before: Seq<char>, after: Seq<char>|
        s == #[trigger] (before + needle + after) && before.len() == k {
        let (before, after) = choose|before: Seq<char>, after: Seq<char>|
            s == #[trigger] (before + needle + after) && before.len() == k;
        assert(s.subrange(k, k + needle.len()) =~= needle);
    }
}

/// A text that is shortened starts as it did: it keeps as many characters as
/// allowed, and says how many bytes it had. One that is short enough is kept.
pub proof fn law_elided(s: Seq<char>, limit: nat)
    ensures
        s.len() <= limit ==> elided(s, limit) == s,
        s.len() > limit ==> s.take(limit as int).is_prefix_of(elided(s, limit)) && elided(
            s,
            limit,
        ).skip(limit as int) == "... ["@ + decimal(encode_utf8(s).len()) + " bytes]"@,
{
    if s.len() > limit {
        let e = elided(s, limit);
        assert(e.subrange(0, limit as int) =~= s.take(limit as int));
        assert(e.skip(limit as int) =~= "... ["@ + decimal(encode_utf8(s).len()) + " bytes]"@);
    }
}

/// A text of a byte sequence that is UTF-8 encodes it.
pub proof fn law_shown_bytes(bytes: Seq<u8>)
    requires
        vstd::utf8::valid_utf8(bytes),
    ensures
        encode_utf8(utf8_lossy(bytes)) == bytes,
{
    vstd::utf8::decode_utf8_encode_utf8(bytes);
}

} // verus!
