use alvarium_demo::codec::{
    decode_ann_list, decode_annotation, decode_annotations_snapshot, decode_reading,
    decode_readings_snapshot, decode_signable, decode_wrapper, encode_ann_list,
    encode_annotation, encode_annotations_snapshot, encode_reading, encode_readings_snapshot,
    encode_signable, encode_wrapper,
};
use alvarium_demo::data::{
    Annotation, AnnotationList, AnnotationWrap, MessageWrapper, ReadingWrap, SensorReading,
    Signable,
};
use alvarium_demo::httpmsg::{
    decode_announcement, decode_subscription, encode_announcement, encode_subscription,
    AnnouncementResponse, SubscriptionRequest,
};

fn sample_reading() -> SensorReading {
    SensorReading { id: String::from("S1"), value: 190, timestamp: 1700000000000 }
}

fn sample_annotation() -> Annotation {
    Annotation {
        key: String::from("k1"),
        hash_algorithm: String::from("sha256"),
        host: String::from("h"),
        kind: String::from("threshold"),
        is_satisfied: true,
        signature: String::from("s"),
    }
}

#[test]
fn reading_encodes_canonically() {
    let text = encode_reading(&sample_reading());
    assert_eq!(text, "{\"id\":\"S1\",\"value\":190,\"timestamp\":1700000000000}");
}

#[test]
fn reading_round_trip() {
    let r = sample_reading();
    let back = decode_reading(encode_reading(&r).as_str()).expect("decodes");
    assert_eq!(back.id, r.id);
    assert_eq!(back.value, r.value);
    assert_eq!(back.timestamp, r.timestamp);
}

#[test]
fn reading_round_trip_extremes() {
    for (value, timestamp) in [(0u8, i64::MIN), (255u8, i64::MAX), (7u8, -1i64), (0u8, 0i64)] {
        let r = SensorReading { id: String::from("edge"), value, timestamp };
        let back = decode_reading(encode_reading(&r).as_str()).expect("decodes");
        assert_eq!(back.value, value);
        assert_eq!(back.timestamp, timestamp);
    }
}

#[test]
fn reading_round_trip_escaped_id() {
    let r = SensorReading { id: String::from("a\"b\\c"), value: 1, timestamp: 5 };
    let text = encode_reading(&r);
    assert_eq!(text, "{\"id\":\"a\\\"b\\\\c\",\"value\":1,\"timestamp\":5}");
    let back = decode_reading(text.as_str()).expect("decodes");
    assert_eq!(back.id, "a\"b\\c");
}

#[test]
fn reading_rejects_malformed() {
    assert!(decode_reading("").is_none());
    assert!(decode_reading("{}").is_none());
    assert!(decode_reading("{\"id\":\"S1\",\"value\":256,\"timestamp\":0}").is_none());
    assert!(decode_reading("{\"id\":\"S1\",\"value\":190,\"timestamp\":0}x").is_none());
    assert!(decode_reading("{\"seed\":\"x\",\"signature\":\"y\"}").is_none());
}

#[test]
fn signable_round_trip() {
    let s = Signable { seed: String::from("{\"id\":\"S1\"}"), signature: String::from("00ff") };
    let text = encode_signable(&s);
    let back = decode_signable(text.as_str()).expect("decodes");
    assert_eq!(back.seed, s.seed);
    assert_eq!(back.signature, s.signature);
    assert!(decode_reading(text.as_str()).is_none());
}

#[test]
fn annotation_round_trip() {
    let a = sample_annotation();
    let text = encode_annotation(&a);
    assert_eq!(
        text,
        "{\"key\":\"k1\",\"hash_algorithm\":\"sha256\",\"host\":\"h\",\"kind\":\"threshold\",\"is_satisfied\":true,\"signature\":\"s\"}"
    );
    let back = decode_annotation(text.as_str()).expect("decodes");
    assert_eq!(back.key, a.key);
    assert_eq!(back.hash_algorithm, a.hash_algorithm);
    assert_eq!(back.host, a.host);
    assert_eq!(back.kind, a.kind);
    assert_eq!(back.is_satisfied, a.is_satisfied);
    assert_eq!(back.signature, a.signature);
}

#[test]
fn annotation_list_round_trip() {
    let mut unsatisfied = sample_annotation();
    unsatisfied.is_satisfied = false;
    let list = AnnotationList { items: vec![sample_annotation(), unsatisfied] };
    let text = encode_ann_list(&list);
    let back = decode_ann_list(text.as_str()).expect("decodes");
    assert_eq!(back.items.len(), 2);
    assert_eq!(back.items[0].key, "k1");
    assert!(back.items[0].is_satisfied);
    assert!(!back.items[1].is_satisfied);
}

#[test]
fn empty_annotation_list_round_trip() {
    let list = AnnotationList { items: vec![] };
    let text = encode_ann_list(&list);
    assert_eq!(text, "{\"items\":[]}");
    let back = decode_ann_list(text.as_str()).expect("decodes");
    assert_eq!(back.items.len(), 0);
}

#[test]
fn wrapper_round_trip() {
    let w = MessageWrapper { content: String::from("QUJD") };
    let text = encode_wrapper(&w);
    assert_eq!(text, "{\"content\":\"QUJD\"}");
    let back = decode_wrapper(text.as_str()).expect("decodes");
    assert_eq!(back.content, "QUJD");
}

#[test]
fn snapshots_round_trip() {
    let readings = vec![
        ReadingWrap {
            id: String::from("key-a"),
            address: String::from("addr-1"),
            reading: sample_reading(),
        },
        ReadingWrap {
            id: String::from("key-b"),
            address: String::from("addr-2"),
            reading: SensorReading { id: String::from("S2"), value: 3, timestamp: -42 },
        },
    ];
    let annotations = vec![
        AnnotationWrap { reading_id: String::from("key-a"), annotation: sample_annotation() },
    ];
    let rblob = encode_readings_snapshot(&readings);
    let ablob = encode_annotations_snapshot(&annotations);
    let rback = decode_readings_snapshot(rblob.as_str()).expect("readings decode");
    let aback = decode_annotations_snapshot(ablob.as_str()).expect("annotations decode");
    assert_eq!(rback.len(), 2);
    assert_eq!(rback[0].id, "key-a");
    assert_eq!(rback[0].reading.value, 190);
    assert_eq!(rback[1].address, "addr-2");
    assert_eq!(rback[1].reading.timestamp, -42);
    assert_eq!(aback.len(), 1);
    assert_eq!(aback[0].reading_id, "key-a");
    assert_eq!(aback[0].annotation.kind, "threshold");
}

#[test]
fn empty_snapshots_round_trip() {
    let rblob = encode_readings_snapshot(&vec![]);
    let ablob = encode_annotations_snapshot(&vec![]);
    assert_eq!(rblob, "[]");
    assert_eq!(ablob, "[]");
    assert_eq!(decode_readings_snapshot(rblob.as_str()).expect("decodes").len(), 0);
    assert_eq!(decode_annotations_snapshot(ablob.as_str()).expect("decodes").len(), 0);
}

#[test]
fn announcement_round_trip() {
    let a = AnnouncementResponse { announcement_id: String::from("addr:msg") };
    let text = encode_announcement(&a);
    assert_eq!(text, "{\"announcement_id\":\"addr:msg\"}");
    let back = decode_announcement(text.as_str()).expect("decodes");
    assert_eq!(back.announcement_id, "addr:msg");
}

#[test]
fn subscription_round_trip() {
    let s = SubscriptionRequest {
        address: String::from("addr"),
        identifier: String::from("ident"),
        id_type: 1,
        topic: String::from("Sensor Topic"),
    };
    let text = encode_subscription(&s);
    assert_eq!(
        text,
        "{\"address\":\"addr\",\"identifier\":\"ident\",\"idType\":1,\"topic\":\"Sensor Topic\"}"
    );
    let back = decode_subscription(text.as_str()).expect("decodes");
    assert_eq!(back.address, "addr");
    assert_eq!(back.identifier, "ident");
    assert_eq!(back.id_type, 1);
    assert_eq!(back.topic, "Sensor Topic");
    assert!(decode_subscription("{\"address\":1}").is_none());
}
