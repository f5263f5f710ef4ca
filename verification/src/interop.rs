//! Calls into std and outside crates whose behaviour is taken on trust; each
//! item names the function it calls and what its contract claims of it.

use vstd::prelude::*;

verus! {

/// `String::push`: appends `c` to the end of `s`, as its documentation states.
#[verifier::external_body]
pub(crate) fn push_char(s: &mut String, c: char)
    ensures
        final(s)@ == old(s)@.push(c),
{
    s.push(c);
}

/// Lowercase hexadecimal digits.
pub open spec fn hex_table() -> Seq<char> {
    seq!['0', '1', '2', '3', '4', '5', '6', '7', '8', '9', 'a', 'b', 'c', 'd', 'e', 'f']
}

/// The last `count` hexadecimal digits of `v`, most significant first.
pub open spec fn hex_digits(v: nat, count: nat) -> Seq<char>
    decreases count,
{
    if count == 0 {
        Seq::empty()
    } else {
        hex_digits(v / 16, (count - 1) as nat).push(hex_table()[(v % 16) as int])
    }
}

pub proof fn lemma_hex_digits_len(v: nat, count: nat)
    ensures
        hex_digits(v, count).len() == count,
    decreases count,
{
    if count > 0 {
        lemma_hex_digits_len(v / 16, (count - 1) as nat);
    }
}

/// A UUID written as 32 lowercase hexadecimal digits.
pub open spec fn uuid_simple_text(id: u128) -> Seq<char> {
    hex_digits(id as nat, 32)
}

/// A UUID in the hyphenated 8-4-4-4-12 form.
pub open spec fn uuid_hyphenated_text(id: u128) -> Seq<char> {
    let d = uuid_simple_text(id);
    d.subrange(0, 8) + seq!['-'] + d.subrange(8, 12) + seq!['-'] + d.subrange(12, 16) + seq!['-']
        + d.subrange(16, 20) + seq!['-'] + d.subrange(20, 32)
}

/// `uuid::Uuid::simple` formatted with `to_string`: the 16 bytes of the UUID
/// (big-endian `u128`) as 32 lowercase hexadecimal digits.
#[verifier::external_body]
pub(crate) fn uuid_simple(id: u128) -> (text: String)
    ensures
        text@ == uuid_simple_text(id),
{
    uuid::Uuid::from_u128(id).simple().to_string()
}

/// `uuid::Uuid`'s `Display`: the hyphenated lowercase form.
#[verifier::external_body]
pub(crate) fn uuid_hyphenated(id: u128) -> (text: String)
    ensures
        text@ == uuid_hyphenated_text(id),
{
    uuid::Uuid::from_u128(id).to_string()
}

/// `uuid::Uuid::new_v4`, as a `u128`. The value is random: nothing is
/// promised of it.
#[verifier::external_body]
pub(crate) fn new_uuid() -> u128 {
    uuid::Uuid::new_v4().as_u128()
}

/// What `str::to_lowercase` returns for a text: its Unicode lowercase
/// mapping, which depends on the text alone.
pub uninterp spec fn lowercase(text: Seq<char>) -> Seq<char>;

/// `str::to_lowercase`.
#[verifier::external_body]
pub(crate) fn to_lowercase(text: &str) -> (lower: String)
    ensures
        lower@ == lowercase(text@),
{
    text.to_lowercase()
}

/// `chrono::Local::now`, as seconds and nanoseconds since the Unix epoch.
/// The clock's reading is not predictable: nothing is promised of it.
#[verifier::external_body]
pub(crate) fn current_time() -> crate::notes::Timestamp {
    let now = chrono::Local::now();
    crate::notes::Timestamp { seconds: now.timestamp(), nanos: now.timestamp_subsec_nanos() }
}

} // verus!
