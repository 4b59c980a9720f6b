use lau_gravity_field::{GravityField, GravitySensor};

#[test]
fn test_sensor_read() {
    let mut field: GravityField<[f64; 3], f64> = GravityField::new();
    field.set("room1", [3.0, 4.0, 0.0]);
    field.set("room2", [0.0, 0.0, 5.0]);
    let sensor = GravitySensor::new("room1");
    let v = sensor.read(&field).unwrap();
    assert_eq!(v[0], 3.0);
    assert_eq!(v[1], 4.0);
}

#[test]
fn test_sensor_read_missing() {
    let mut field: GravityField<[f64; 3], f64> = GravityField::new();
    field.set("room1", [3.0, 4.0, 0.0]);
    field.set("room2", [0.0, 0.0, 5.0]);
    let sensor = GravitySensor::new("room99");
    assert!(sensor.read(&field).is_none());
}

#[test]
fn sensor_keeps_its_room_name() {
    let sensor = GravitySensor::new("kitchen");
    assert_eq!(sensor.room_id, "kitchen");
}

#[test]
fn sensor_read_follows_latest_set() {
    let mut field: GravityField<i64, i64> = GravityField::new();
    let sensor = GravitySensor::new("hall");
    assert_eq!(sensor.read(&field), None);
    field.set("hall", -4);
    assert_eq!(sensor.read(&field), Some(-4));
    field.set("hall", 11);
    assert_eq!(sensor.read(&field), Some(11));
}
