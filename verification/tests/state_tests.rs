use base64::Engine;
use easyenv::keymap::{ManagedMap, ManagedVar, PriorValue};
use easyenv::state::EasyenvState;

fn state_of(entries: &[(&str, PriorValue)], signature: u64) -> EasyenvState {
    let mut managed = ManagedMap::new();
    for (k, p) in entries {
        managed.insert(k.to_string(), ManagedVar { prior: p.clone() });
    }
    EasyenvState { managed, signature }
}

#[test]
fn round_trips_empty_state() {
    let state = EasyenvState::empty();
    let token = state.encode();
    assert_eq!(EasyenvState::decode(&token), Some(state));
}

#[test]
fn round_trips_mixed_managed_vars() {
    let state = state_of(&[("FOO", PriorValue::SetTo("orig".to_string())), ("BAR", PriorValue::Unset)], 0xDEAD_BEEF_u64);
    let token = state.encode();
    assert_eq!(EasyenvState::decode(&token), Some(state));
}

#[test]
fn round_trips_values_with_newlines_equals_and_unicode() {
    let state = state_of(&[("TRICKY", PriorValue::SetTo("line1\nline2=value\u{1F600}".to_string()))], 1);
    let token = state.encode();
    assert_eq!(EasyenvState::decode(&token), Some(state));
}

#[test]
fn round_trips_empty_string_value() {
    let state = state_of(&[("EMPTY", PriorValue::SetTo(String::new()))], 2);
    let token = state.encode();
    assert_eq!(EasyenvState::decode(&token), Some(state));
}

#[test]
fn decode_rejects_garbage() {
    assert_eq!(EasyenvState::decode("not valid base64!!"), None);
    assert_eq!(EasyenvState::decode(""), None);
}

#[test]
fn decode_rejects_wrong_version() {
    let bytes = vec![99u8, 0, 0, 0, 0, 0, 0, 0, 0, 0, 0, 0, 0];
    let token = base64::engine::general_purpose::STANDARD.encode(bytes);
    assert_eq!(EasyenvState::decode(&token), None);
}

#[test]
fn encoding_is_the_documented_byte_layout() {
    let state = state_of(&[("K", PriorValue::SetTo("v".to_string())), ("A", PriorValue::Unset)], 0x0102);
    let token = state.encode();
    let bytes = base64::engine::general_purpose::STANDARD.decode(token).unwrap();
    let expected: Vec<u8> = vec![
        1, // version
        0x02, 0x01, 0, 0, 0, 0, 0, 0, // signature
        2, 0, 0, 0, // count
        1, 0, 0, 0, b'A', 0, // "A", unset (sorted first)
        1, 0, 0, 0, b'K', 1, 1, 0, 0, 0, b'v', // "K", set to "v"
    ];
    assert_eq!(bytes, expected);
}

#[test]
fn decode_rejects_truncated_bytes() {
    let state = state_of(&[("K", PriorValue::Unset)], 3);
    let mut bytes = base64::engine::general_purpose::STANDARD.decode(state.encode()).unwrap();
    bytes.pop();
    let token = base64::engine::general_purpose::STANDARD.encode(&bytes);
    assert_eq!(EasyenvState::decode(&token), None);
}
