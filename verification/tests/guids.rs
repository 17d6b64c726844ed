use jokolay::guid::{parse_guid, parse_optional_guid};

#[test]
fn a_guid_is_the_decoded_bytes_most_significant_first() {
    assert_eq!(
        parse_optional_guid(Some("AAECAwQFBgcICQoLDA0ODw==")),
        Some(0x000102030405060708090a0b0c0d0e0f)
    );
}

#[test]
fn a_short_guid_is_padded_with_zeros() {
    assert_eq!(parse_optional_guid(Some("AQ==")), Some(1u128 << 120));
}

#[test]
fn a_guid_that_does_not_decode_gives_none() {
    assert_eq!(parse_optional_guid(Some("not base64!")), None);
    assert_eq!(parse_optional_guid(None), None);
    assert_eq!(parse_optional_guid(Some("AAECAwQFBgcICQoLDA0ODxAREhMUFRYX")), None);
}

#[test]
fn a_missing_guid_is_drawn_at_random() {
    let g = parse_guid(None);
    assert_eq!(g >> 76 & 0xF, 4);
    assert_eq!(parse_guid(Some("AAECAwQFBgcICQoLDA0ODw==")), 0x000102030405060708090a0b0c0d0e0f);
}
