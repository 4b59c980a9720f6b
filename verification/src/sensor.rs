use vstd::prelude::*;

use crate::field::GravityField;

verus! {

/// A sensor bound to one room of a gravity field.
#[derive(Debug, Clone, PartialEq, Eq)]
pub struct GravitySensor {
    pub room_id: String,
}

impl GravitySensor {
    /// Creates a sensor that reads the room named `room_id`.
    pub fn new(room_id: &str) -> (sensor: GravitySensor)
        ensures
            sensor.room_id@ == room_id@,
    {
        GravitySensor { room_id: room_id.to_string() }
    }

    /// The value of the sensor's room in `field`, or `None` when the field has no such room.
    pub fn read<V: Copy, W>(&self, field: &GravityField<V, W>) -> (reading: Option<V>)
        ensures
            reading is Some <==> field.rooms().contains_key(self.room_id@),
            reading matches Some(v) ==> v == field.rooms()[self.room_id@],
    {
        match field.get(self.room_id.as_str()) {
            Some(v) => Some(*v),
            None => None,
        }
    }
}

} // verus!
