use alvarium_demo::classifier::{classify, make_bundle_message, unpack_annotations, Classified};
use alvarium_demo::codec::{encode_reading, encode_signable};
use alvarium_demo::data::{Annotation, AnnotationList, SensorReading, Signable};
use alvarium_demo::providers::derive_key;

fn annotation(key: &str, kind: &str) -> Annotation {
    Annotation {
        key: String::from(key),
        hash_algorithm: String::from("sha256"),
        host: String::from("h"),
        kind: String::from(kind),
        is_satisfied: true,
        signature: String::from("s"),
    }
}

#[test]
fn classifies_a_reading_with_its_content_key() {
    let reading = SensorReading { id: String::from("S1"), value: 190, timestamp: 1700000000000 };
    let payload = encode_reading(&reading);
    match classify("addr-9", payload.as_str()) {
        Classified::Reading(rw) => {
            assert_eq!(rw.id, derive_key(payload.as_str()));
            assert_eq!(rw.address, "addr-9");
            assert_eq!(rw.reading.id, "S1");
            assert_eq!(rw.reading.value, 190);
            assert_eq!(rw.reading.timestamp, 1700000000000);
        },
        _ => panic!("a reading body must classify as a reading"),
    }
}

#[test]
fn classifies_a_bundle_into_one_record_per_item() {
    let list = AnnotationList {
        items: vec![annotation("k1", "threshold"), annotation("k1", "source")],
    };
    let body = make_bundle_message(&list);
    match classify("addr", body.as_str()) {
        Classified::Annotations(ws) => {
            assert_eq!(ws.len(), 2);
            assert_eq!(ws[0].reading_id, "k1");
            assert_eq!(ws[1].reading_id, "k1");
            assert_eq!(ws[0].annotation.kind, "threshold");
            assert_eq!(ws[1].annotation.kind, "source");
        },
        _ => panic!("a bundle body must classify as annotations"),
    }
}

#[test]
fn bundle_content_is_real_base64() {
    let list = AnnotationList { items: vec![annotation("k1", "threshold")] };
    let body = make_bundle_message(&list);
    assert_eq!(
        body,
        "{\"content\":\"eyJpdGVtcyI6W3sia2V5IjoiazEiLCJoYXNoX2FsZ29yaXRobSI6InNoYTI1NiIsImhvc3QiOiJoIiwia2luZCI6InRocmVzaG9sZCIsImlzX3NhdGlzZmllZCI6dHJ1ZSwic2lnbmF0dXJlIjoicyJ9XX0=\"}"
    );
}

#[test]
fn drops_unrecognized_bodies() {
    for body in ["", "garbage", "{\"seed\":\"x\",\"signature\":\"y\"}", "{\"content\":\"!!!\"}"] {
        assert!(matches!(classify("a", body), Classified::Unrecognized), "body {:?}", body);
    }
}

#[test]
fn signable_bodies_are_not_readings() {
    let reading = SensorReading { id: String::from("S1"), value: 190, timestamp: 1 };
    let wrapped = encode_signable(&Signable {
        seed: encode_reading(&reading),
        signature: String::from("00"),
    });
    assert!(matches!(classify("a", wrapped.as_str()), Classified::Unrecognized));
}

#[test]
fn empty_bundles_are_dropped_whole() {
    let body = make_bundle_message(&AnnotationList { items: vec![] });
    assert!(matches!(classify("a", body.as_str()), Classified::Unrecognized));
}

#[test]
fn inconsistent_bundles_are_dropped_whole() {
    let list = AnnotationList {
        items: vec![annotation("k1", "threshold"), annotation("k2", "source")],
    };
    let body = make_bundle_message(&list);
    assert!(matches!(classify("a", body.as_str()), Classified::Unrecognized));
}

#[test]
fn unpack_rejects_bytes_that_are_no_bundle() {
    assert!(unpack_annotations(vec![0xff, 0xfe]).is_none());
    assert!(unpack_annotations(Vec::from("{\"items\":".as_bytes())).is_none());
}
