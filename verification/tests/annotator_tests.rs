use alvarium_demo::annotator::ThresholdAnnotator;
use alvarium_demo::codec::{encode_reading, encode_signable};
use alvarium_demo::data::{Error, SensorReading, Signable};
use alvarium_demo::providers::derive_key;

fn annotator(low: u8, high: u8) -> ThresholdAnnotator {
    ThresholdAnnotator::new(
        String::from("sha256"),
        String::from("threshold"),
        vec![7u8; 32],
        low,
        high,
    )
    .expect("key length is right")
}

fn reading_payload(value: u8) -> String {
    encode_reading(&SensorReading { id: String::from("S1"), value, timestamp: 1700000000000 })
}

#[test]
fn threshold_is_inclusive_on_both_bounds() {
    let a = annotator(180, 200);
    for (value, expected) in [(180u8, true), (200u8, true), (179u8, false), (201u8, false), (190u8, true)] {
        let payload = reading_payload(value);
        let ann = a.annotate_with_host(payload.as_str(), String::from("host-1"));
        assert_eq!(ann.is_satisfied, expected, "value {}", value);
        assert_eq!(ann.kind, "threshold");
        assert_eq!(ann.host, "host-1");
        assert_eq!(ann.hash_algorithm, "sha256");
    }
}

#[test]
fn wrapped_reading_gets_the_same_verdict() {
    let a = annotator(180, 200);
    let bare = reading_payload(190);
    let wrapped = encode_signable(&Signable {
        seed: bare.clone(),
        signature: String::from("00"),
    });
    let ann_bare = a.annotate_with_host(bare.as_str(), String::from("h"));
    let ann_wrapped = a.annotate_with_host(wrapped.as_str(), String::from("h"));
    assert!(ann_bare.is_satisfied);
    assert!(ann_wrapped.is_satisfied);
}

#[test]
fn unreadable_payload_is_not_satisfied() {
    let a = annotator(180, 200);
    let ann = a.annotate_with_host("not a reading", String::from("h"));
    assert!(!ann.is_satisfied);
}

#[test]
fn key_is_stable_across_calls_and_wrapping() {
    let a = annotator(180, 200);
    let bare = reading_payload(190);
    let wrapped = encode_signable(&Signable {
        seed: bare.clone(),
        signature: String::from("ff"),
    });
    let k1 = a.annotate_with_host(bare.as_str(), String::from("h")).key;
    let k2 = a.annotate_with_host(bare.as_str(), String::from("h")).key;
    let k3 = a.annotate_with_host(wrapped.as_str(), String::from("h")).key;
    assert_eq!(k1, k2);
    assert_eq!(k1, k3);
    assert_eq!(k1.len(), 64);
    assert!(k1.chars().all(|c| c.is_ascii_hexdigit()));
}

#[test]
fn key_is_the_sha256_hex_of_the_canonical_bytes() {
    assert_eq!(
        derive_key("abc"),
        "ba7816bf8f01cfea414140de5dae2223b00361a396177a9cb410ff61f20015ad"
    );
    assert_eq!(
        derive_key("{\"id\":\"S1\",\"value\":190,\"timestamp\":1700000000000}"),
        "e49434dd86411992f4d2cc83c016c6ae40d0dfa31bdcf49651700c67dcdbaa0c"
    );
    let a = annotator(180, 200);
    let payload = reading_payload(190);
    let ann = a.annotate_with_host(payload.as_str(), String::from("h"));
    assert_eq!(ann.key, "e49434dd86411992f4d2cc83c016c6ae40d0dfa31bdcf49651700c67dcdbaa0c");
}

#[test]
fn signature_is_deterministic_hex() {
    let a = annotator(180, 200);
    let payload = reading_payload(190);
    let s1 = a.annotate_with_host(payload.as_str(), String::from("h")).signature;
    let s2 = a.annotate_with_host(payload.as_str(), String::from("h")).signature;
    assert_eq!(s1, s2);
    assert_eq!(s1.len(), 128);
    assert!(s1.chars().all(|c| c.is_ascii_hexdigit()));
}

#[test]
fn annotate_resolves_a_host() {
    let a = annotator(180, 200);
    let payload = reading_payload(190);
    let ann = a.annotate(payload.as_str()).expect("a host name exists here");
    assert!(ann.is_satisfied);
    assert!(!ann.host.is_empty());
}

#[test]
fn wrong_key_length_is_rejected() {
    let r = ThresholdAnnotator::new(
        String::from("sha256"),
        String::from("threshold"),
        vec![1u8; 31],
        180,
        200,
    );
    assert!(matches!(r, Err(Error::InvalidSignKey)));
}
