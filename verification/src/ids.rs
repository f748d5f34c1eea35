//! Identifiers of threads and comments.
//!
//! An identifier is the 128-bit value of a UUID. Its text form, used in
//! persisted rows, is the hyphenated lower-case form.

use vstd::prelude::*;

verus! {

/// Stable identifier for a comment thread.
#[derive(Clone, Copy, PartialEq, Eq, Structural, Hash, Debug)]
pub struct ThreadId(pub u128);

/// Stable identifier for a single comment node within a thread.
#[derive(Clone, Copy, PartialEq, Eq, Structural, Hash, Debug)]
pub struct CommentId(pub u128);

/// Whether a 128-bit value carries the version and variant bits of a random
/// (version 4) UUID.
pub open spec fn is_random_uuid(value: u128) -> bool {
    (value >> 76) & 0xf == 4 && (value >> 62) & 0x3 == 2
}

/// The lower-case hexadecimal digit of a number below sixteen.
pub open spec fn hex_char(d: u128) -> char {
    if d < 10 {
        (48 + d) as char
    } else {
        (87 + d) as char
    }
}

/// The `k`-th hexadecimal digit of a 128-bit value, most significant first.
pub open spec fn hex_digit_at(value: u128, k: int) -> u128 {
    (value >> ((4 * (31 - k)) as u128)) & 0xf
}

/// Which hexadecimal digit stands at position `i` of the hyphenated form.
pub open spec fn digit_index(i: int) -> int {
    if i > 23 {
        i - 4
    } else if i > 18 {
        i - 3
    } else if i > 13 {
        i - 2
    } else if i > 8 {
        i - 1
    } else {
        i
    }
}

/// The hyphenated lower-case text of a UUID: 32 hexadecimal digits in groups
/// of 8, 4, 4, 4 and 12.
pub open spec fn hyphenated(value: u128) -> Seq<char> {
    Seq::new(
        36,
        |i: int|
            if i == 8 || i == 13 || i == 18 || i == 23 {
                '-'
            } else {
                hex_char(hex_digit_at(value, digit_index(i)))
            },
    )
}

/// The number that a hexadecimal digit stands for, in either case.
pub open spec fn hex_value(c: char) -> Option<u128> {
    if '0' <= c && c <= '9' {
        Some((c as u128 - 48) as u128)
    } else if 'a' <= c && c <= 'f' {
        Some((c as u128 - 87) as u128)
    } else if 'A' <= c && c <= 'F' {
        Some((c as u128 - 55) as u128)
    } else {
        None
    }
}

/// Where the `k`-th hexadecimal digit stands in the hyphenated form.
pub open spec fn digit_place(k: int) -> int {
    if k < 8 {
        k
    } else if k < 12 {
        k + 1
    } else if k < 16 {
        k + 2
    } else if k < 20 {
        k + 3
    } else {
        k + 4
    }
}

/// The 32 characters between the hyphens of a text of 36, if the hyphens stand
/// in their places.
pub open spec fn grouped_digits(text: Seq<char>) -> Option<Seq<char>> {
    if text[8] == '-' && text[13] == '-' && text[18] == '-' && text[23] == '-' {
        Some(Seq::new(32, |k: int| text[digit_place(k)]))
    } else {
        None
    }
}

/// A character with an ASCII letter in lower case.
pub open spec fn ascii_lower(c: char) -> char {
    if 'A' <= c && c <= 'Z' {
        (c as u32 + 32) as char
    } else {
        c
    }
}

/// The 32 characters that are the digits of a UUID in one of its forms: bare,
/// hyphenated, hyphenated in braces, or hyphenated behind `urn:uuid:`, the
/// letters of which may be in either case.
pub open spec fn uuid_digits(text: Seq<char>) -> Option<Seq<char>> {
    if text.len() == 32 {
        Some(text)
    } else if text.len() == 36 {
        grouped_digits(text)
    } else if text.len() == 38 && text[0] == '{' && text[37] == '}' {
        grouped_digits(text.subrange(1, 37))
    } else if text.len() == 45 && text.take(9).map_values(|c: char| ascii_lower(c))
        == "urn:uuid:"@ {
        grouped_digits(text.skip(9))
    } else {
        None
    }
}

/// Whether a text is a form of a UUID: its digits are those of the value.
pub open spec fn is_uuid_text(text: Seq<char>, value: u128) -> bool {
    match uuid_digits(text) {
        Some(digits) => forall|k: int|
            0 <= k < 32 ==> hex_value(#[trigger] digits[k]) == Some(hex_digit_at(value, k)),
        None => false,
    }
}

/// The UUID value of a text, or `None` when the text is no UUID.
pub open spec fn parsed_uuid(text: Seq<char>) -> Option<u128> {
    if exists|value: u128| is_uuid_text(text, value) {
        Some(choose|value: u128| is_uuid_text(text, value))
    } else {
        None
    }
}

/// The thread identifier that a text denotes, if it denotes one.
pub open spec fn thread_id_of(text: Seq<char>) -> Option<ThreadId> {
    match parsed_uuid(text) {
        Some(value) => Some(ThreadId(value)),
        None => None,
    }
}

/// The comment identifier that a text denotes, if it denotes one.
pub open spec fn comment_id_of(text: Seq<char>) -> Option<CommentId> {
    match parsed_uuid(text) {
        Some(value) => Some(CommentId(value)),
        None => None,
    }
}

/// Calls `uuid::Uuid::new_v4`. The value is random but for the version and
/// variant bits, which are those of a version 4 UUID.
#[verifier::external_body]
fn new_random_uuid() -> (value: u128)
    ensures
        is_random_uuid(value),
{
    uuid::Uuid::new_v4().as_u128()
}

/// Calls the `Display` impl of `uuid::Uuid`, which writes the hyphenated
/// lower-case form.
#[verifier::external_body]
fn format_uuid(value: u128) -> (text: String)
    ensures
        text@ == hyphenated(value),
{
    uuid::Uuid::from_u128(value).to_string()
}

/// Calls `uuid::Uuid::parse_str`, which accepts a UUID in its bare,
/// hyphenated, braced and URN forms, with digits in either case, and no other
/// text.
#[verifier::external_body]
fn parse_uuid(text: &str) -> (value: Option<u128>)
    ensures
        value == parsed_uuid(text@),
{
    uuid::Uuid::parse_str(text).ok().map(|id| id.as_u128())
}

proof fn lemma_value_from_digits(a: u128, b: u128)
    requires
        forall|k: int| 0 <= k < 32 ==> hex_digit_at(a, k) == hex_digit_at(b, k),
    ensures
        a == b,
{
    assert(hex_digit_at(a, 0) == hex_digit_at(b, 0));
    assert(hex_digit_at(a, 1) == hex_digit_at(b, 1));
    assert(hex_digit_at(a, 2) == hex_digit_at(b, 2));
    assert(hex_digit_at(a, 3) == hex_digit_at(b, 3));
    assert(hex_digit_at(a, 4) == hex_digit_at(b, 4));
    assert(hex_digit_at(a, 5) == hex_digit_at(b, 5));
    assert(hex_digit_at(a, 6) == hex_digit_at(b, 6));
    assert(hex_digit_at(a, 7) == hex_digit_at(b, 7));
    assert(hex_digit_at(a, 8) == hex_digit_at(b, 8));
    assert(hex_digit_at(a, 9) == hex_digit_at(b, 9));
    assert(hex_digit_at(a, 10) == hex_digit_at(b, 10));
    assert(hex_digit_at(a, 11) == hex_digit_at(b, 11));
    assert(hex_digit_at(a, 12) == hex_digit_at(b, 12));
    assert(hex_digit_at(a, 13) == hex_digit_at(b, 13));
    assert(hex_digit_at(a, 14) == hex_digit_at(b, 14));
    assert(hex_digit_at(a, 15) == hex_digit_at(b, 15));
    assert(hex_digit_at(a, 16) == hex_digit_at(b, 16));
    assert(hex_digit_at(a, 17) == hex_digit_at(b, 17));
    assert(hex_digit_at(a, 18) == hex_digit_at(b, 18));
    assert(hex_digit_at(a, 19) == hex_digit_at(b, 19));
    assert(hex_digit_at(a, 20) == hex_digit_at(b, 20));
    assert(hex_digit_at(a, 21) == hex_digit_at(b, 21));
    assert(hex_digit_at(a, 22) == hex_digit_at(b, 22));
    assert(hex_digit_at(a, 23) == hex_digit_at(b, 23));
    assert(hex_digit_at(a, 24) == hex_digit_at(b, 24));
    assert(hex_digit_at(a, 25) == hex_digit_at(b, 25));
    assert(hex_digit_at(a, 26) == hex_digit_at(b, 26));
    assert(hex_digit_at(a, 27) == hex_digit_at(b, 27));
    assert(hex_digit_at(a, 28) == hex_digit_at(b, 28));
    assert(hex_digit_at(a, 29) == hex_digit_at(b, 29));
    assert(hex_digit_at(a, 30) == hex_digit_at(b, 30));
    assert(hex_digit_at(a, 31) == hex_digit_at(b, 31));
    assert(a == b) by (bit_vector)
        requires
            (a >> 124u128) & 0xf == (b >> 124u128) & 0xf,
            (a >> 120u128) & 0xf == (b >> 120u128) & 0xf,
            (a >> 116u128) & 0xf == (b >> 116u128) & 0xf,
            (a >> 112u128) & 0xf == (b >> 112u128) & 0xf,
            (a >> 108u128) & 0xf == (b >> 108u128) & 0xf,
            (a >> 104u128) & 0xf == (b >> 104u128) & 0xf,
            (a >> 100u128) & 0xf == (b >> 100u128) & 0xf,
            (a >> 96u128) & 0xf == (b >> 96u128) & 0xf,
            (a >> 92u128) & 0xf == (b >> 92u128) & 0xf,
            (a >> 88u128) & 0xf == (b >> 88u128) & 0xf,
            (a >> 84u128) & 0xf == (b >> 84u128) & 0xf,
            (a >> 80u128) & 0xf == (b >> 80u128) & 0xf,
            (a >> 76u128) & 0xf == (b >> 76u128) & 0xf,
            (a >> 72u128) & 0xf == (b >> 72u128) & 0xf,
            (a >> 68u128) & 0xf == (b >> 68u128) & 0xf,
            (a >> 64u128) & 0xf == (b >> 64u128) & 0xf,
            (a >> 60u128) & 0xf == (b >> 60u128) & 0xf,
            (a >> 56u128) & 0xf == (b >> 56u128) & 0xf,
            (a >> 52u128) & 0xf == (b >> 52u128) & 0xf,
            (a >> 48u128) & 0xf == (b >> 48u128) & 0xf,
            (a >> 44u128) & 0xf == (b >> 44u128) & 0xf,
            (a >> 40u128) & 0xf == (b >> 40u128) & 0xf,
            (a >> 36u128) & 0xf == (b >> 36u128) & 0xf,
            (a >> 32u128) & 0xf == (b >> 32u128) & 0xf,
            (a >> 28u128) & 0xf == (b >> 28u128) & 0xf,
            (a >> 24u128) & 0xf == (b >> 24u128) & 0xf,
            (a >> 20u128) & 0xf == (b >> 20u128) & 0xf,
            (a >> 16u128) & 0xf == (b >> 16u128) & 0xf,
            (a >> 12u128) & 0xf == (b >> 12u128) & 0xf,
            (a >> 8u128) & 0xf == (b >> 8u128) & 0xf,
            (a >> 4u128) & 0xf == (b >> 4u128) & 0xf,
            (a >> 0u128) & 0xf == (b >> 0u128) & 0xf,
    ;
}

/// A text is a form of one UUID at most, and denotes that one.
pub proof fn lemma_parsed_uuid(text: Seq<char>, value: u128)
    requires
        is_uuid_text(text, value),
    ensures
        parsed_uuid(text) == Some(value),
{
    let digits = uuid_digits(text)->0;
    let chosen = choose|v: u128| is_uuid_text(text, v);
    assert forall|k: int| 0 <= k < 32 implies hex_digit_at(chosen, k) == hex_digit_at(
        value,
        k,
    ) by {
        assert(hex_value(digits[k]) == Some(hex_digit_at(value, k)));
    }
    lemma_value_from_digits(chosen, value);
}

/// A UUID's text reads back as the UUID.
pub proof fn lemma_uuid_text_round_trip(value: u128)
    ensures
        parsed_uuid(hyphenated(value)) == Some(value),
{
    let digits = uuid_digits(hyphenated(value))->0;
    assert forall|k: int| 0 <= k < 32 implies hex_value(#[trigger] digits[k]) == Some(
        hex_digit_at(value, k),
    ) by {
        assert(digit_index(digit_place(k)) == k);
        let x = value >> ((4 * (31 - k)) as u128);
        assert(x & 0xf < 16) by (bit_vector);
    }
    lemma_parsed_uuid(hyphenated(value), value);
}

/// Distinct UUIDs have distinct texts.
pub proof fn lemma_hyphenated_injective(a: u128, b: u128)
    requires
        hyphenated(a) == hyphenated(b),
    ensures
        a == b,
{
    lemma_uuid_text_round_trip(a);
    lemma_uuid_text_round_trip(b);
}

impl ThreadId {
    /// A fresh random identifier.
    pub fn new() -> (r: Self)
        ensures
            is_random_uuid(r.0),
    {
        ThreadId(new_random_uuid())
    }

    /// The identifier's text form.
    pub fn to_text(self) -> (text: String)
        ensures
            text@ == hyphenated(self.0),
    {
        format_uuid(self.0)
    }

    /// Reads an identifier's text form.
    pub fn from_text(text: &str) -> (r: Option<Self>)
        ensures
            r == thread_id_of(text@),
    {
        match parse_uuid(text) {
            Some(value) => Some(ThreadId(value)),
            None => None,
        }
    }
}

impl Default for ThreadId {
    fn default() -> (r: Self)
        ensures
            is_random_uuid(r.0),
    {
        ThreadId::new()
    }
}

impl CommentId {
    /// A fresh random identifier.
    pub fn new() -> (r: Self)
        ensures
            is_random_uuid(r.0),
    {
        CommentId(new_random_uuid())
    }

    /// The identifier's text form.
    pub fn to_text(self) -> (text: String)
        ensures
            text@ == hyphenated(self.0),
    {
        format_uuid(self.0)
    }

    /// Reads an identifier's text form.
    pub fn from_text(text: &str) -> (r: Option<Self>)
        ensures
            r == comment_id_of(text@),
    {
        match parse_uuid(text) {
            Some(value) => Some(CommentId(value)),
            None => None,
        }
    }
}

impl Default for CommentId {
    fn default() -> (r: Self)
        ensures
            is_random_uuid(r.0),
    {
        CommentId::new()
    }
}

} // verus!
