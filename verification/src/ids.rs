//! Random identifiers. An identifier is a number of 128 bits; it is written as a
//! UUID.
use uuid::Uuid;
use vstd::arithmetic::div_mod::lemma_div_denominator;
use vstd::arithmetic::power::{lemma_pow1, lemma_pow_adds, lemma_pow_positive, pow};
use vstd::prelude::*;

verus! {

/// Whether a number has the version and variant bits of a random UUID.
pub open spec fn is_random_id(id: u128) -> bool {
    (id >> 76) & 0xf == 4 && (id >> 62) & 0x3 == 2
}

/// The lower-case hexadecimal digit of a value below sixteen.
pub open spec fn hex_digit(d: nat) -> char {
    if d < 10 {
        (48 + d) as char
    } else {
        (87 + d) as char
    }
}

/// A number as 32 hexadecimal digits.
pub open spec fn simple(id: u128) -> Seq<char> {
    Seq::new(
        32,
        |i: int| hex_digit(((id as nat) / pow(16, (31 - i) as nat) as nat) % 16),
    )
}

/// A number as 32 hexadecimal digits in groups of 8, 4, 4, 4 and 12.
pub open spec fn hyphenated(id: u128) -> Seq<char> {
    let digits = simple(id);
    digits.subrange(0, 8) + seq!['-'] + digits.subrange(8, 12) + seq!['-'] + digits.subrange(12, 16)
        + seq!['-'] + digits.subrange(16, 20) + seq!['-'] + digits.subrange(20, 32)
}

/// The value of a hexadecimal digit of either case.
pub open spec fn hex_value(c: char) -> Option<nat> {
    if '0' <= c <= '9' {
        Some((c as nat - 48) as nat)
    } else if 'a' <= c <= 'f' {
        Some((c as nat - 87) as nat)
    } else if 'A' <= c <= 'F' {
        Some((c as nat - 55) as nat)
    } else {
        None
    }
}

/// The number that hexadecimal digits stand for, the most significant first.
pub open spec fn hex_number(digits: Seq<char>) -> Option<nat>
    decreases digits.len(),
{
    if digits.len() == 0 {
        Some(0)
    } else {
        match (hex_number(digits.drop_last()), hex_value(digits.last())) {
            (Some(n), Some(d)) => Some(16 * n + d),
            _ => None,
        }
    }
}

/// The digits of a text in groups of 8, 4, 4, 4 and 12 with hyphens between.
pub open spec fn ungrouped(s: Seq<char>) -> Option<Seq<char>> {
    if s.len() == 36 && s[8] == '-' && s[13] == '-' && s[18] == '-' && s[23] == '-' {
        Some(
            s.subrange(0, 8) + s.subrange(9, 13) + s.subrange(14, 18) + s.subrange(19, 23)
                + s.subrange(24, 36),
        )
    } else {
        None
    }
}

/// Whether a text starts with `urn:uuid:`, in letters of either case.
pub open spec fn has_urn_prefix(s: Seq<char>) -> bool {
    &&& s.len() >= 9
    &&& s[0] == 'u' || s[0] == 'U'
    &&& s[1] == 'r' || s[1] == 'R'
    &&& s[2] == 'n' || s[2] == 'N'
    &&& s[3] == ':'
    &&& s[4] == 'u' || s[4] == 'U'
    &&& s[5] == 'u' || s[5] == 'U'
    &&& s[6] == 'i' || s[6] == 'I'
    &&& s[7] == 'd' || s[7] == 'D'
    &&& s[8] == ':'
}

/// The digits of an identifier in one of its written forms: bare, in groups, in
/// groups between braces, and in groups behind `urn:uuid:`.
pub open spec fn id_digits(text: Seq<char>) -> Option<Seq<char>> {
    if text.len() == 32 {
        Some(text)
    } else if text.len() == 36 {
        ungrouped(text)
    } else if text.len() == 38 && text[0] == '{' && text[37] == '}' {
        ungrouped(text.subrange(1, 37))
    } else if text.len() == 45 && has_urn_prefix(text) {
        ungrouped(text.subrange(9, 45))
    } else {
        None
    }
}

/// The identifier that a text is one of the written forms of.
pub open spec fn read_id(text: Seq<char>) -> Option<u128> {
    match id_digits(text) {
        Some(digits) => match hex_number(digits) {
            Some(n) => Some(n as u128),
            None => None,
        },
        None => None,
    }
}

/// `uuid::Uuid::new_v4`: a random identifier. Which one it is, is left open; its
/// version and variant bits are those of every random UUID.
#[verifier::external_body]
pub(crate) fn new_id() -> (id: u128)
    ensures
        is_random_id(id),
{
    Uuid::new_v4().as_u128()
}

/// `uuid::Uuid`'s `Display`: the hyphenated form in lower case.
#[verifier::external_body]
pub(crate) fn hyphenated_text(id: u128) -> (text: String)
    ensures
        text@ == hyphenated(id),
{
    Uuid::from_u128(id).to_string()
}

/// `uuid::Uuid::simple`, written out: the digits in lower case, without hyphens.
#[verifier::external_body]
pub(crate) fn simple_text(id: u128) -> (text: String)
    ensures
        text@ == simple(id),
{
    Uuid::from_u128(id).simple().to_string()
}

/// `uuid::Uuid::parse_str`: the identifier that a text is one of the written
/// forms of. It takes 32 hexadecimal digits of either case, and nothing else
/// beside hyphens, braces and the prefix of a URN in their places.
#[verifier::external_body]
pub(crate) fn parse_id(text: &str) -> (id: Option<u128>)
    ensures
        id == read_id(text@),
{
    Uuid::parse_str(text).ok().map(|id| id.as_u128())
}

/// An identifier is read back from either form that it is written in.
pub proof fn law_id_reads_back(id: u128)
    ensures
        read_id(hyphenated(id)) == Some(id),
        read_id(simple(id)) == Some(id),
{
    let digits = simple(id);
    lemma_read_digits(id, 32);
    assert(digits.take(32) =~= digits);
    assert(pow(16, 0) == 1) by {
        reveal(pow);
    }
    let s = hyphenated(id);
    assert(s.len() == 36 && s[8] == '-' && s[13] == '-' && s[18] == '-' && s[23] == '-');
    assert(ungrouped(s)->0 =~= digits);
}

/// The first `k` digits of an identifier stand for what is left of it without the
/// others.
proof fn lemma_read_digits(id: u128, k: nat)
    requires
        k <= 32,
    ensures
        hex_number(simple(id).take(k as int)) == Some(
            (id as int / pow(16, (32 - k) as nat)) as nat,
        ),
    decreases k,
{
    let n = id as int;
    if k == 0 {
        lemma_sixteen_to_32();
        assert(n / pow(16, 32) == 0) by (nonlinear_arith)
            requires
                0 <= n < pow(16, 32),
        ;
    } else {
        let j = (k - 1) as nat;
        let low = pow(16, (32 - k) as nat);
        lemma_read_digits(id, j);
        assert(simple(id).take(k as int).drop_last() =~= simple(id).take(j as int));
        lemma_pow_positive(16, (32 - k) as nat);
        lemma_pow1(16);
        lemma_pow_adds(16, (32 - k) as nat, 1);
        lemma_div_denominator(n, low, 16);
        let q = n / low;
        assert(q >= 0) by (nonlinear_arith)
            requires
                q == n / low,
                n >= 0,
                low > 0,
        ;
        assert(simple(id).take(k as int).last() == hex_digit((q % 16) as nat));
    }
}

/// Identifiers are below the 32nd power of sixteen.
proof fn lemma_sixteen_to_32()
    ensures
        pow(16, 32) == u128::MAX + 1,
{
    lemma_pow1(16);
    lemma_pow_adds(16, 1, 1);
    assert(pow(16, 2) == 0x100) by (nonlinear_arith)
        requires
            pow(16, 2) == pow(16, 1) * pow(16, 1),
            pow(16, 1) == 16,
    ;
    lemma_pow_adds(16, 2, 2);
    assert(pow(16, 4) == 0x1_0000) by (nonlinear_arith)
        requires
            pow(16, 4) == pow(16, 2) * pow(16, 2),
            pow(16, 2) == 0x100,
    ;
    lemma_pow_adds(16, 4, 4);
    assert(pow(16, 8) == 0x1_0000_0000) by (nonlinear_arith)
        requires
            pow(16, 8) == pow(16, 4) * pow(16, 4),
            pow(16, 4) == 0x1_0000,
    ;
    lemma_pow_adds(16, 8, 8);
    assert(pow(16, 16) == 0x1_0000_0000_0000_0000) by (nonlinear_arith)
        requires
            pow(16, 16) == pow(16, 8) * pow(16, 8),
            pow(16, 8) == 0x1_0000_0000,
    ;
    lemma_pow_adds(16, 16, 16);
    assert(pow(16, 32) == u128::MAX + 1) by (nonlinear_arith)
        requires
            pow(16, 32) == pow(16, 16) * pow(16, 16),
            pow(16, 16) == 0x1_0000_0000_0000_0000,
    ;
}

} // verus!
