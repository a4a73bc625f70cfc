//! Reproducible object identifiers (mRIDs) for written CGMES documents:
//! name-based UUIDs of an object's role and name, so the same network
//! writes the same identifiers; an imported UUID takes precedence.

use vstd::prelude::*;
use vstd::utf8::encode_utf8;

use uuid::Uuid;

use crate::text::{chars_of, nat_text, push_chars, push_nat, push_str, string_of};

verus! {

broadcast use vstd::string::group_string_axioms;

#[verifier::external_type_specification]
#[verifier::external_body]
pub struct ExUuid(Uuid);

/// The name-based (SHA-1, version 5) UUID of `name` in the namespace UUID
/// `namespace`, as its sixteen bytes.
pub uninterp spec fn uuid_v5_bytes(namespace: Seq<u8>, name: Seq<u8>) -> Seq<u8>;

/// Whether `Uuid::parse_str` accepts the text `text`.
pub open spec fn uuid_parses(text: Seq<char>) -> bool {
    uuid_text_form(encode_utf8(text))
}

/// An ASCII hexadecimal digit, either case.
pub open spec fn is_hex_byte(b: u8) -> bool {
    (48 <= b <= 57) || (97 <= b <= 102) || (65 <= b <= 70)
}

/// 36 bytes of hexadecimal digits with hyphens at 8, 13, 18 and 23.
pub open spec fn hyphenated_form(s: Seq<u8>) -> bool {
    s.len() == 36 && forall|i: int|
        0 <= i < 36 ==> if i == 8 || i == 13 || i == 18 || i == 23 {
            #[trigger] s[i] == 45
        } else {
            is_hex_byte(s[i])
        }
}

/// The UUID spellings `Uuid::parse_str` reads: 32 hexadecimal digits,
/// hyphenated, braced hyphenated, or hyphenated after `urn:uuid:` in any
/// case.
pub open spec fn uuid_text_form(s: Seq<u8>) -> bool {
    ||| s.len() == 32 && forall|i: int| 0 <= i < 32 ==> is_hex_byte(#[trigger] s[i])
    ||| hyphenated_form(s)
    ||| s.len() == 38 && s[0] == 123 && s[37] == 125 && hyphenated_form(s.subrange(1, 37))
    ||| s.len() == 45 && s.take(9).map_values(|b: u8| if 65 <= b <= 90 {
        (b + 32) as u8
    } else {
        b
    }) == encode_utf8("urn:uuid:"@) && hyphenated_form(s.skip(9))
}

/// A lower case hexadecimal digit.
pub open spec fn hex_digit(n: int) -> char {
    if n < 10 {
        (48 + n) as char
    } else {
        (87 + n) as char
    }
}

/// The 32 lower case hexadecimal digits of the first `n` bytes.
pub open spec fn simple_hex(bytes: Seq<u8>, n: int) -> Seq<char>
    decreases n,
{
    if n <= 0 {
        Seq::empty()
    } else {
        simple_hex(bytes, n - 1) + seq![hex_digit(bytes[n - 1] as int / 16), hex_digit(bytes[n - 1] as int % 16)]
    }
}

/// The hyphenated lower case spelling of a UUID: 8-4-4-4-12 digits.
pub open spec fn hyphenated(bytes: Seq<u8>) -> Seq<char> {
    let s = simple_hex(bytes, 16);
    s.subrange(0, 8) + "-"@ + s.subrange(8, 12) + "-"@ + s.subrange(12, 16) + "-"@ + s.subrange(16, 20) + "-"@
        + s.subrange(20, 32)
}

/// The bytes of the URL namespace UUID, 6ba7b811-9dad-11d1-80b4-00c04fd430c8.
pub open spec fn url_namespace_bytes() -> Seq<u8> {
    seq![0x6bu8, 0xa7, 0xb8, 0x11, 0x9d, 0xad, 0x11, 0xd1, 0x80, 0xb4, 0x00, 0xc0, 0x4f, 0xd4, 0x30, 0xc8]
}

/// `Uuid::NAMESPACE_URL`, as bytes.
#[verifier::external_body]
fn url_namespace() -> (r: [u8; 16])
    ensures
        r@ == url_namespace_bytes(),
{
    *Uuid::NAMESPACE_URL.as_bytes()
}

/// `Uuid::new_v5`: the name-based UUID of `name` in `namespace`; the same
/// arguments give the same UUID.
#[verifier::external_body]
fn uuid_v5(namespace: [u8; 16], name: &[u8]) -> (r: [u8; 16])
    ensures
        r@ == uuid_v5_bytes(namespace@, name@),
{
    *Uuid::new_v5(&Uuid::from_bytes(namespace), name).as_bytes()
}

/// `Uuid::to_string`: the hyphenated lower case spelling.
#[verifier::external_body]
fn uuid_text(bytes: [u8; 16]) -> (r: String)
    ensures
        r@ == hyphenated(bytes@),
{
    Uuid::from_bytes(bytes).to_string()
}

/// `Uuid::parse_str(text).is_ok()`.
#[verifier::external_body]
fn parses_as_uuid(text: &str) -> (r: bool)
    ensures
        r == uuid_parses(text@),
{
    Uuid::parse_str(text).is_ok()
}

/// The namespace every written identifier is derived in.
pub open spec fn writer_namespace() -> Seq<u8> {
    uuid_v5_bytes(url_namespace_bytes(), encode_utf8("https://powerio.dev/cgmes"@))
}

/// The identifier of the object of role `kind` named `name`.
pub open spec fn det_mrid_spec(kind: Seq<char>, name: Seq<char>) -> Seq<char> {
    hyphenated(uuid_v5_bytes(writer_namespace(), encode_utf8(kind + ":"@ + name)))
}

/// A UUID-shaped identifier derived from an object's role and name, so
/// writes are reproducible.
pub fn det_mrid(kind: &str, name: &str) -> (r: String)
    ensures
        r@ == det_mrid_spec(kind@, name@),
{
    let namespace = uuid_v5(url_namespace(), "https://powerio.dev/cgmes".as_bytes());
    let mut text: Vec<char> = Vec::new();
    push_str(&mut text, kind);
    push_str(&mut text, ":");
    push_str(&mut text, name);
    let joined = string_of(&text);
    let id = uuid_v5(namespace, joined.as_str().as_bytes());
    uuid_text(id)
}

/// The imported identifier when it is a UUID, else the one derived from the
/// role and the imported identifier, or the name without one.
pub open spec fn mrid_or_spec(kind: Seq<char>, name: Seq<char>, uid: Option<Seq<char>>) -> Seq<char> {
    match uid {
        Some(u) => if uuid_parses(u) {
            u
        } else {
            det_mrid_spec(kind, u)
        },
        None => det_mrid_spec(kind, name),
    }
}

/// The imported mRID when the element carries one, else deterministic.
pub fn mrid_or(kind: &str, name: &str, uid: Option<&str>) -> (r: String)
    ensures
        r@ == mrid_or_spec(kind@, name@, match uid {
            Some(u) => Some(u@),
            None => None,
        }),
{
    match uid {
        Some(u) => if parses_as_uuid(u) {
            string_of(&chars_of(u))
        } else {
            det_mrid(kind, u)
        },
        None => det_mrid(kind, name),
    }
}

/// The terminal of equipment `eq` at sequence `seq`.
pub fn term_id(eq: &str, seq: usize) -> (r: String)
    ensures
        r@ == det_mrid_spec("terminal"@, eq@ + ":"@ + nat_text(seq as nat)),
{
    let mut name: Vec<char> = Vec::new();
    push_str(&mut name, eq);
    push_str(&mut name, ":");
    push_nat(&mut name, seq as u64);
    det_mrid("terminal", string_of(&name).as_str())
}

/// The DC terminal of `owner` at sequence `sequence`.
pub fn dc_terminal_mrid(owner: &str, sequence: u32) -> (r: String)
    ensures
        r@ == det_mrid_spec("dc_terminal"@, owner@ + ":"@ + nat_text(sequence as nat)),
{
    let mut name: Vec<char> = Vec::new();
    push_str(&mut name, owner);
    push_str(&mut name, ":");
    push_nat(&mut name, sequence as u64);
    det_mrid("dc_terminal", string_of(&name).as_str())
}

} // verus!
