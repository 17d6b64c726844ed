//! GUIDs as marker packs write them: the standard base64 text of the
//! identifier's bytes, most significant first.

use vstd::prelude::*;
use vstd::string::StringSliceAdditionalSpecFns;
use crate::uuids::new_uuid;

verus! {

/// The 20-byte buffer that base64 text decodes into, starting from zeros,
/// or `None` when it does not decode into it.
pub uninterp spec fn guid_buffer(text: Seq<u8>) -> Option<Seq<u8>>;

/// `Engine::decode_slice` of the standard base64 engine, which wants
/// canonical padding, into a buffer of 20 zero bytes: the buffer, when the
/// decoding succeeded. What the bytes are is named, not stated.
#[verifier::external_body]
fn decode_guid_buffer(text: &[u8]) -> (r: Option<[u8; 20]>)
    ensures
        r matches Some(b) ==> guid_buffer(text@) == Some(b@),
        r is None ==> guid_buffer(text@) is None,
{
    let mut buffer = [0u8; 20];
    match base64::Engine::decode_slice(&base64::engine::general_purpose::STANDARD, text, &mut buffer) {
        Ok(_) => Some(buffer),
        Err(_) => None,
    }
}

/// The value of the bytes read most significant first, as 128 bits.
pub open spec fn be_value(s: Seq<u8>) -> u128
    decreases s.len(),
{
    if s.len() == 0 {
        0
    } else {
        (be_value(s.drop_last()) << 8u128) | (s.last() as u128)
    }
}

/// The GUID of decoded bytes: the first sixteen, most significant first.
pub open spec fn guid_of_buffer(b: Seq<u8>) -> u128 {
    be_value(b.take(16))
}

/// The GUID an attribute's text gives, if there is a text and it decodes.
pub open spec fn attribute_guid(attribute: Option<Seq<u8>>) -> Option<u128> {
    match attribute {
        Some(t) => match guid_buffer(t) {
            Some(b) => Some(guid_of_buffer(b)),
            None => None,
        },
        None => None,
    }
}

/// The bytes of an attribute's text, if there is one.
pub open spec fn attribute_bytes(attribute: Option<&str>) -> Option<Seq<u8>> {
    match attribute {
        Some(t) => Some(t.spec_bytes()),
        None => None,
    }
}

/// The GUID of the `guid` attribute's text, when there is a text and it
/// decodes as base64 into at most 20 bytes.
pub fn parse_optional_guid(attribute: Option<&str>) -> (r: Option<u128>)
    ensures
        r == attribute_guid(attribute_bytes(attribute)),
{
    let text = match attribute {
        Some(t) => t,
        None => return None,
    };
    let buffer = match decode_guid_buffer(text.as_bytes()) {
        Some(b) => b,
        None => return None,
    };
    let mut value: u128 = 0;
    let mut i: usize = 0;
    while i < 16
        invariant
            0 <= i <= 16,
            buffer@.len() == 20,
            value == be_value(buffer@.take(i as int)),
        decreases 16 - i,
    {
        proof {
            assert(buffer@.take(i + 1).drop_last() =~= buffer@.take(i as int));
        }
        value = (value << 8u128) | (buffer[i] as u128);
        i = i + 1;
    }
    Some(value)
}

/// The GUID of the `guid` attribute, or a fresh random one when there is
/// none or it does not decode.
pub fn parse_guid(attribute: Option<&str>) -> (r: u128)
    ensures
        attribute_guid(attribute_bytes(attribute)) matches Some(g) ==> r == g,
        attribute_guid(attribute_bytes(attribute)) is None
            ==> r & 0xF000C000000000000000u128 == 0x40008000000000000000u128,
{
    match parse_optional_guid(attribute) {
        Some(g) => g,
        None => new_uuid(),
    }
}

} // verus!
