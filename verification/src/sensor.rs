//! A mock flow sensor: produces readings whose values fall into a nominal
//! band most of the time and into low or high outlier bands otherwise.

use vstd::prelude::*;
use crate::data::SensorReading;
use crate::providers::{now_millis, rand_below};

verus! {

/// A named sensor.
pub struct Sensor(pub String);

impl Sensor {
    /// A mostly-nominal reading: five percent in the low band 175..=180,
    /// three percent in the high band 200..=210, the rest in 180..=199.
    pub fn new_reading(&self) -> (r: SensorReading)
        ensures
            r@.id == self.0@,
            175 <= r@.value <= 210,
    {
        let p = rand_below(1_000_000);
        let value: u8 = if p < 50_000 {
            175 + rand_below(6) as u8
        } else if p < 80_000 {
            200 + rand_below(11) as u8
        } else {
            180 + rand_below(20) as u8
        };
        SensorReading { id: self.0.clone(), value, timestamp: now_millis() }
    }

    /// A frequently-outlying reading: fifteen percent in the low band,
    /// five percent in the high band, the rest in 180..=199.
    pub fn bad_reading(&self) -> (r: SensorReading)
        ensures
            r@.id == self.0@,
            175 <= r@.value <= 210,
    {
        let p = rand_below(1_000_000);
        let value: u8 = if p < 150_000 {
            175 + rand_below(6) as u8
        } else if p < 200_000 {
            200 + rand_below(11) as u8
        } else {
            180 + rand_below(20) as u8
        };
        SensorReading { id: self.0.clone(), value, timestamp: now_millis() }
    }
}

} // verus!
