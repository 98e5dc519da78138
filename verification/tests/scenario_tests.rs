use alvarium_demo::annotator::ThresholdAnnotator;
use alvarium_demo::classifier::make_bundle_message;
use alvarium_demo::codec::encode_reading;
use alvarium_demo::data::{AnnotationList, SensorReading};
use alvarium_demo::reconciler::Reconciler;
use alvarium_demo::sensor::Sensor;
use alvarium_demo::view::DashboardContext;

#[test]
fn out_of_order_annotation_still_reaches_its_reading() {
    let reading = SensorReading { id: String::from("S1"), value: 190, timestamp: 1700000000000 };
    let payload = encode_reading(&reading);

    let annotator = ThresholdAnnotator::new(
        String::from("sha256"),
        String::from("threshold"),
        vec![9u8; 32],
        180,
        200,
    )
    .expect("key length is right");
    let annotation = annotator.annotate_with_host(payload.as_str(), String::from("producer-host"));
    assert!(annotation.is_satisfied);

    let bundle = make_bundle_message(&AnnotationList { items: vec![annotation] });

    // The annotation bundle arrives before the reading it refers to.
    let mut rec = Reconciler::new();
    rec.ingest("addr-ann", bundle.as_str());
    assert_eq!(rec.readings.len(), 0);
    assert_eq!(rec.annotations.len(), 1);
    rec.ingest("addr-reading", payload.as_str());
    assert_eq!(rec.readings.len(), 1);

    let board = DashboardContext::new(rec.readings, rec.annotations);
    assert_eq!(board.sensors.len(), 1);
    let sensor = &board.sensors[0];
    assert_eq!(sensor.id, "S1");
    assert_eq!(sensor.total, 1);
    assert_eq!(sensor.readings[0].value, 190);
    assert_eq!(sensor.readings[0].score, 333333);
    assert_eq!(sensor.readings[0].annotations.len(), 1);
    assert_eq!(sensor.avgcf, "33.3");
}

#[test]
fn state_survives_a_snapshot_and_restore() {
    let reading = SensorReading { id: String::from("S1"), value: 190, timestamp: 5 };
    let payload = encode_reading(&reading);
    let annotator = ThresholdAnnotator::new(
        String::from("sha256"),
        String::from("threshold"),
        vec![9u8; 32],
        180,
        200,
    )
    .expect("key length is right");
    let annotation = annotator.annotate_with_host(payload.as_str(), String::from("h"));
    let bundle = make_bundle_message(&AnnotationList { items: vec![annotation] });

    let mut rec = Reconciler::new();
    rec.ingest("a1", payload.as_str());
    rec.ingest("a2", bundle.as_str());
    rec.ingest("a3", "noise that the classifier drops");

    let rblob = rec.snapshot_readings();
    let ablob = rec.snapshot_annotations();
    let restored = Reconciler::restore(rblob.as_str(), ablob.as_str()).expect("blobs parse");
    assert_eq!(restored.readings.len(), rec.readings.len());
    assert_eq!(restored.annotations.len(), rec.annotations.len());
    assert_eq!(restored.readings[0].id, rec.readings[0].id);
    assert_eq!(restored.annotations[0].reading_id, rec.annotations[0].reading_id);

    let board = DashboardContext::new(restored.readings, restored.annotations);
    assert_eq!(board.sensors[0].readings[0].score, 333333);
}

#[test]
fn sensor_values_stay_in_their_bands() {
    let sensor = Sensor(String::from("Flow_Sensor_1"));
    for _ in 0..50 {
        let r = sensor.new_reading();
        assert_eq!(r.id, "Flow_Sensor_1");
        assert!((175..=210).contains(&r.value));
        assert!(r.timestamp > 1_600_000_000_000);
        let b = sensor.bad_reading();
        assert!((175..=210).contains(&b.value));
    }
}
