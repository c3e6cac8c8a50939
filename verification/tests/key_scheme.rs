use notestore::keys::{
    decode_sort_key, document_sort_key, group_sort_key, i64_to_dec, note_sort_key, u64_to_dec,
};

#[test]
fn decimal_of_zero() {
    assert_eq!(u64_to_dec(0), "0");
}

#[test]
fn decimal_of_many_digits() {
    assert_eq!(u64_to_dec(9), "9");
    assert_eq!(u64_to_dec(10), "10");
    assert_eq!(u64_to_dec(1669918412), "1669918412");
    assert_eq!(u64_to_dec(u64::MAX), "18446744073709551615");
}

#[test]
fn decimal_of_signed_values() {
    assert_eq!(i64_to_dec(0), "0");
    assert_eq!(i64_to_dec(42), "42");
    assert_eq!(i64_to_dec(-7), "-7");
    assert_eq!(i64_to_dec(i64::MIN), "-9223372036854775808");
    assert_eq!(i64_to_dec(i64::MAX), "9223372036854775807");
}

#[test]
fn sort_keys_carry_type_prefixes() {
    assert_eq!(document_sort_key("1669918412"), "DOCUMENT#1669918412");
    assert_eq!(group_sort_key("1669918412-0"), "GROUP#1669918412-0");
    assert_eq!(note_sort_key("1669918412-0-2"), "NOTE#1669918412-0-2");
}

#[test]
fn decoding_strips_the_prefix() {
    assert_eq!(
        decode_sort_key("DOCUMENT#1669918412").as_deref(),
        Some("1669918412")
    );
    assert_eq!(decode_sort_key("GROUP#17-3").as_deref(), Some("17-3"));
    assert_eq!(decode_sort_key("NOTE#17-3-0").as_deref(), Some("17-3-0"));
}

#[test]
fn decoding_rejects_unknown_prefixes() {
    assert_eq!(decode_sort_key("TASK#17"), None);
    assert_eq!(decode_sort_key("document#17"), None);
    assert_eq!(decode_sort_key(""), None);
    assert_eq!(decode_sort_key("DOCUMENT"), None);
}

#[test]
fn decode_of_encode_is_identity() {
    for id in ["0", "17", "-5", "1669918412-3-1", ""] {
        assert_eq!(decode_sort_key(&document_sort_key(id)).as_deref(), Some(id));
        assert_eq!(decode_sort_key(&group_sort_key(id)).as_deref(), Some(id));
        assert_eq!(decode_sort_key(&note_sort_key(id)).as_deref(), Some(id));
    }
}
