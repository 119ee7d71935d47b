//! Task identifiers: random (version 4) UUIDs, held as their 128-bit value.

use vstd::prelude::*;

verus! {

/// The lowercase hexadecimal digit for a value below sixteen.
pub open spec fn hex_digit(d: u128) -> char {
    if d < 10 {
        ((d + 48) as u8) as char
    } else {
        ((d + 87) as u8) as char
    }
}

/// The `k`-th hexadecimal digit of `value`, counted from the most significant one (`0 <= k < 32`).
pub open spec fn nibble(value: u128, k: int) -> u128 {
    (value >> ((4 * (31 - k)) as u128)) & 0xf
}

/// Whether position `p` of the 36-character hyphenated form holds a hyphen.
pub open spec fn is_hyphen_position(p: int) -> bool {
    p == 8 || p == 13 || p == 18 || p == 23
}

/// The index of the hexadecimal digit shown at position `p` of the hyphenated form.
pub open spec fn digit_at(p: int) -> int {
    if p < 8 {
        p
    } else if p < 13 {
        p - 1
    } else if p < 18 {
        p - 2
    } else if p < 23 {
        p - 3
    } else {
        p - 4
    }
}

/// The hyphenated lowercase text of a UUID (`xxxxxxxx-xxxx-xxxx-xxxx-xxxxxxxxxxxx`), most
/// significant digit first.
pub open spec fn hyphenated(value: u128) -> Seq<char> {
    Seq::new(
        36,
        |p: int|
            if is_hyphen_position(p) {
                '-'
            } else {
                hex_digit(nibble(value, digit_at(p)))
            },
    )
}

/// Whether a 128-bit value carries the version (4, random) and variant (RFC 4122) bits of a
/// random UUID.
pub open spec fn is_random_uuid(value: u128) -> bool {
    &&& (value >> 76u128) & 0xf == 4
    &&& (value >> 62u128) & 0x3 == 2
}

/// Whether a character is a lowercase hexadecimal digit.
pub open spec fn is_lower_hex(c: char) -> bool {
    ('0' <= c && c <= '9') || ('a' <= c && c <= 'f')
}

/// The position in the hyphenated form of the `k`-th hexadecimal digit.
pub open spec fn digit_position(k: int) -> int {
    if k < 8 {
        k
    } else if k < 12 {
        k + 1
    } else if k < 16 {
        k + 2
    } else if k < 20 {
        k + 3
    } else {
        k + 4
    }
}

proof fn lemma_hex_digit_code(d: u128)
    requires
        d < 16,
    ensures
        hex_digit(d) as int == if d < 10 { d + 48 } else { d + 87 },
{
}

proof fn lemma_nibble_below_sixteen(value: u128, shift: u128)
    by (bit_vector)
    ensures
        (value >> shift) & 0xf < 16,
{
}

proof fn lemma_shift_split(value: u128, shift: u128)
    by (bit_vector)
    requires
        shift <= 124,
    ensures
        value >> shift == ((value >> (shift + 4)) << 4u128) | ((value >> shift) & 0xf),
{
}

proof fn lemma_top_digit(value: u128)
    by (bit_vector)
    ensures
        value >> 124u128 == (value >> 124u128) & 0xf,
{
}

proof fn lemma_shift_by_zero(value: u128)
    by (bit_vector)
    ensures
        value >> 0u128 == value,
{
}

/// Values whose first `k + 1` hexadecimal digits agree agree on everything above the rest.
proof fn lemma_equal_digits_equal_prefix(a: u128, b: u128, k: nat)
    requires
        k < 32,
        forall|j: int| 0 <= j <= k ==> #[trigger] nibble(a, j) == nibble(b, j),
    ensures
        a >> ((4 * (31 - k)) as u128) == b >> ((4 * (31 - k)) as u128),
    decreases k,
{
    assert(nibble(a, k as int) == nibble(b, k as int));
    if k == 0 {
        lemma_top_digit(a);
        lemma_top_digit(b);
    } else {
        lemma_equal_digits_equal_prefix(a, b, (k - 1) as nat);
        let shift = (4 * (31 - k)) as u128;
        assert(((4 * (31 - (k - 1))) as u128) == shift + 4);
        lemma_shift_split(a, shift);
        lemma_shift_split(b, shift);
    }
}

/// The text of an identifier is a UUID in hyphenated lowercase form: 36 characters, hyphens at
/// positions 8, 13, 18 and 23, and lowercase hexadecimal digits everywhere else.
pub proof fn lemma_task_id_text_pattern(value: u128)
    ensures
        hyphenated(value).len() == 36,
        forall|p: int| 0 <= p < 36 && is_hyphen_position(p) ==> #[trigger] hyphenated(value)[p] == '-',
        forall|p: int| 0 <= p < 36 && !is_hyphen_position(p) ==> is_lower_hex(#[trigger] hyphenated(value)[p]),
{
    assert forall|p: int| 0 <= p < 36 && !is_hyphen_position(p) implies is_lower_hex(
        #[trigger] hyphenated(value)[p],
    ) by {
        let k = digit_at(p);
        lemma_nibble_below_sixteen(value, (4 * (31 - k)) as u128);
    }
}

/// Distinct identifiers have distinct texts: the text determines the identifier.
pub proof fn lemma_task_id_text_injective(a: u128, b: u128)
    requires
        hyphenated(a) == hyphenated(b),
    ensures
        a == b,
{
    assert forall|k: int| 0 <= k < 32 implies #[trigger] nibble(a, k) == nibble(b, k) by {
        let p = digit_position(k);
        assert(digit_at(p) == k && !is_hyphen_position(p));
        assert(hyphenated(a)[p] == hyphenated(b)[p]);
        lemma_nibble_below_sixteen(a, (4 * (31 - k)) as u128);
        lemma_nibble_below_sixteen(b, (4 * (31 - k)) as u128);
        lemma_hex_digit_code(nibble(a, k));
        lemma_hex_digit_code(nibble(b, k));
        assert(hyphenated(a)[p] == hex_digit(nibble(a, k)));
        assert(hyphenated(b)[p] == hex_digit(nibble(b, k)));
        assert(hex_digit(nibble(a, k)) as int == hex_digit(nibble(b, k)) as int);
    }
    lemma_equal_digits_equal_prefix(a, b, 31);
    lemma_shift_by_zero(a);
    lemma_shift_by_zero(b);
}

/// Draws a fresh random identifier with `uuid::Uuid::new_v4` and returns its value
/// (`Uuid::as_u128`). The uuid source masks the random bits so that the version nibble is 4 and
/// the variant bits are `10`; that is all the contract claims: the other bits are random.
#[verifier::external_body]
fn random_uuid_value() -> (value: u128)
    ensures
        is_random_uuid(value),
{
    uuid::Uuid::new_v4().as_u128()
}

/// Formats a UUID value with `uuid::Uuid`'s `Display`, which writes the hyphenated lowercase form
/// of its big-endian bytes; the contract states that text.
#[verifier::external_body]
fn uuid_text(value: u128) -> (text: String)
    ensures
        text@ == hyphenated(value),
{
    uuid::Uuid::from_u128(value).to_string()
}

/// The identifier of a registered task.
#[derive(Debug, Clone, Copy, PartialEq, Eq, Hash, Structural)]
pub struct TaskId(pub u128);

impl TaskId {
    /// A fresh identifier: a random version-4 UUID.
    pub fn new() -> (id: Self)
        ensures
            is_random_uuid(id.0),
    {
        TaskId(random_uuid_value())
    }

    /// The identifier as text: the hyphenated lowercase UUID form.
    pub fn to_string(&self) -> (text: String)
        ensures
            text@ == hyphenated(self.0),
            text@.len() == 36,
    {
        uuid_text(self.0)
    }
}

impl Default for TaskId {
    fn default() -> (id: Self)
        ensures
            is_random_uuid(id.0),
    {
        Self::new()
    }
}

} // verus!
