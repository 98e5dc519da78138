use alvarium_demo::data::{Annotation, AnnotationWrap, ReadingWrap, SensorReading};
use alvarium_demo::view::DashboardContext;

fn wrap(key: &str, sensor: &str, value: u8, timestamp: i64) -> ReadingWrap {
    ReadingWrap {
        id: String::from(key),
        address: String::from("addr"),
        reading: SensorReading { id: String::from(sensor), value, timestamp },
    }
}

fn ann(key: &str, kind: &str, satisfied: bool) -> AnnotationWrap {
    AnnotationWrap {
        reading_id: String::from(key),
        annotation: Annotation {
            key: String::from(key),
            hash_algorithm: String::from("sha256"),
            host: String::from("h"),
            kind: String::from(kind),
            is_satisfied: satisfied,
            signature: String::from("s"),
        },
    }
}

#[test]
fn unannotated_reading_scores_zero() {
    let board = DashboardContext::new(vec![wrap("k1", "S1", 190, 10)], vec![]);
    assert_eq!(board.sensors.len(), 1);
    assert_eq!(board.sensors[0].id, "S1");
    assert_eq!(board.sensors[0].total, 1);
    assert_eq!(board.sensors[0].readings[0].score, 0);
    assert_eq!(board.sensors[0].readings[0].annotations.len(), 0);
    assert_eq!(board.sensors[0].avgcf, "0");
}

#[test]
fn one_satisfied_threshold_scores_its_weight() {
    let board = DashboardContext::new(
        vec![wrap("k1", "S1", 190, 10)],
        vec![ann("k1", "threshold", true)],
    );
    let sensor = &board.sensors[0];
    assert_eq!(sensor.readings[0].score, 333333);
    assert_eq!(sensor.readings[0].annotations.len(), 1);
    assert_eq!(sensor.avgcf, "33.3");
}

#[test]
fn weights_add_up_and_unsatisfied_count_nothing() {
    let board = DashboardContext::new(
        vec![wrap("k1", "S1", 190, 10)],
        vec![
            ann("k1", "threshold", true),
            ann("k1", "source", true),
            ann("k1", "tls", true),
            ann("k1", "pki", false),
            ann("k1", "unheard-of", true),
            ann("other", "pki", true),
        ],
    );
    let r = &board.sensors[0].readings[0];
    assert_eq!(r.score, 333333 + 133333 + 200000);
    assert_eq!(r.annotations.len(), 5);
}

#[test]
fn duplicate_kinds_can_exceed_one_unit() {
    let board = DashboardContext::new(
        vec![wrap("k1", "S1", 190, 10)],
        vec![
            ann("k1", "threshold", true),
            ann("k1", "threshold", true),
            ann("k1", "threshold", true),
            ann("k1", "pki", true),
        ],
    );
    assert_eq!(board.sensors[0].readings[0].score, 4 * 333333);
}

#[test]
fn mean_is_rounded_to_thousandths() {
    let board = DashboardContext::new(
        vec![wrap("k1", "S1", 190, 10), wrap("k2", "S1", 191, 11)],
        vec![ann("k1", "threshold", true)],
    );
    // scores 333333 and 0; the mean 166.66... thousandths rounds to 167.
    assert_eq!(board.sensors[0].avgcf, "16.7");
}

#[test]
fn readings_come_newest_first() {
    let board = DashboardContext::new(
        vec![wrap("k1", "S1", 1, 100), wrap("k2", "S1", 2, 300), wrap("k3", "S1", 3, 200)],
        vec![],
    );
    let stamps: Vec<i64> = board.sensors[0].readings.iter().map(|r| r.timestamp).collect();
    assert_eq!(stamps, vec![300, 200, 100]);
}

#[test]
fn readings_are_capped_after_the_mean() {
    let mut readings = Vec::new();
    for k in 0..80i64 {
        readings.push(wrap(&format!("k{}", k), "S1", 1, k));
    }
    let board = DashboardContext::new(readings, vec![]);
    assert_eq!(board.sensors[0].total, 80);
    assert_eq!(board.sensors[0].readings.len(), 75);
    assert_eq!(board.sensors[0].readings[0].timestamp, 79);
    assert_eq!(board.sensors[0].readings[74].timestamp, 5);
}

#[test]
fn sensors_come_in_ascending_id_order() {
    let board = DashboardContext::new(
        vec![wrap("k1", "Sensor_B", 1, 1), wrap("k2", "Sensor_A", 2, 2), wrap("k3", "Sensor_B", 3, 3)],
        vec![],
    );
    let ids: Vec<&str> = board.sensors.iter().map(|s| s.id.as_str()).collect();
    assert_eq!(ids, vec!["Sensor_A", "Sensor_B"]);
    assert_eq!(board.sensors[1].total, 2);
}

#[test]
fn reading_keys_are_shortened_for_display() {
    let board = DashboardContext::new(
        vec![wrap("0123456789abcdef", "S1", 1, 1), wrap("short", "S1", 2, 2)],
        vec![],
    );
    let readings = &board.sensors[0].readings;
    assert_eq!(readings[0].id, "short");
    assert_eq!(readings[1].id, "0123456789");
}

#[test]
fn empty_board_has_no_sensors() {
    let board = DashboardContext::new(vec![], vec![ann("k1", "threshold", true)]);
    assert_eq!(board.sensors.len(), 0);
}
