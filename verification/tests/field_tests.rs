use lau_gravity_field::GravityField;

#[test]
fn test_new_field() {
    let f: GravityField<[f64; 3], f64> = GravityField::new();
    assert!(f.vectors.is_empty());
    assert!(f.connections.is_empty());
}

#[test]
fn test_set_and_get() {
    let mut f: GravityField<[f64; 3], f64> = GravityField::new();
    f.set("room1", [1.0, 2.0, 3.0]);
    let v = f.get("room1").unwrap();
    assert_eq!(v[0], 1.0);
    assert_eq!(v[1], 2.0);
    assert_eq!(v[2], 3.0);
    assert!(f.get("nonexistent").is_none());
}

#[test]
fn test_set_overwrites() {
    let mut f: GravityField<[f64; 3], f64> = GravityField::new();
    f.set("room1", [1.0, 0.0, 0.0]);
    f.set("room1", [2.0, 0.0, 0.0]);
    assert_eq!(f.get("room1").unwrap()[0], 2.0);
}

#[test]
fn test_connect() {
    let mut f: GravityField<[f64; 3], f64> = GravityField::new();
    f.connect("a", "b", 0.5);
    assert_eq!(f.connections.len(), 1);
    assert_eq!(f.connections[0].2, 0.5);
}

#[test]
fn test_connect_overwrites() {
    let mut f: GravityField<[f64; 3], f64> = GravityField::new();
    f.connect("a", "b", 0.5);
    f.connect("a", "b", 0.8);
    assert_eq!(f.connections.len(), 1);
    assert_eq!(f.connections[0].2, 0.8);
}

#[test]
fn test_disconnect() {
    let mut f: GravityField<[f64; 3], f64> = GravityField::new();
    f.connect("a", "b", 0.5);
    f.disconnect("a", "b");
    assert!(f.connections.is_empty());
}

#[test]
fn test_disconnect_reverse_order() {
    let mut f: GravityField<[f64; 3], f64> = GravityField::new();
    f.connect("a", "b", 0.5);
    f.disconnect("b", "a");
    assert!(f.connections.is_empty());
}

#[test]
fn field_test_default() {
    let f: GravityField<[f64; 3], f64> = GravityField::default();
    assert!(f.vectors.is_empty());
}

#[test]
fn set_keeps_one_entry_per_room() {
    let mut f: GravityField<u32, u32> = GravityField::new();
    f.set("a", 1);
    f.set("b", 2);
    f.set("a", 3);
    assert_eq!(f.vectors.len(), 2);
    assert_eq!(f.get("a"), Some(&3));
    assert_eq!(f.get("b"), Some(&2));
    assert_eq!(f.vectors[0].0, "a");
    assert_eq!(f.vectors[1].0, "b");
}

#[test]
fn get_reads_first_entry_of_a_repeated_name() {
    let mut f: GravityField<u32, u32> = GravityField::new();
    f.vectors.push(("a".to_string(), 7));
    f.vectors.push(("a".to_string(), 9));
    assert_eq!(f.get("a"), Some(&7));
    f.set("a", 1);
    assert_eq!(f.vectors[0].1, 1);
    assert_eq!(f.vectors[1].1, 9);
}

#[test]
fn connect_replaces_reverse_order_link_and_goes_last() {
    let mut f: GravityField<u32, u32> = GravityField::new();
    f.connect("a", "b", 1);
    f.connect("c", "d", 2);
    f.connect("b", "a", 3);
    assert_eq!(f.connections.len(), 2);
    assert_eq!(f.connections[0], ("c".to_string(), "d".to_string(), 2));
    assert_eq!(f.connections[1], ("b".to_string(), "a".to_string(), 3));
}

#[test]
fn disconnect_keeps_other_links_in_order() {
    let mut f: GravityField<u32, u32> = GravityField::new();
    f.connect("a", "b", 1);
    f.connect("b", "c", 2);
    f.connections.push(("b".to_string(), "a".to_string(), 4));
    f.connect("c", "d", 3);
    f.disconnect("a", "b");
    assert_eq!(
        f.connections,
        vec![("b".to_string(), "c".to_string(), 2), ("c".to_string(), "d".to_string(), 3)]
    );
}

#[test]
fn disconnect_twice_is_disconnect_once() {
    let mut f: GravityField<u32, u32> = GravityField::new();
    f.connect("a", "b", 1);
    f.connect("b", "c", 2);
    f.disconnect("a", "b");
    let once = f.connections.clone();
    f.disconnect("b", "a");
    assert_eq!(f.connections, once);
}

#[test]
fn connect_then_disconnect_leaves_no_trace() {
    let mut f: GravityField<u32, u32> = GravityField::new();
    f.connect("x", "y", 5);
    f.connect("a", "b", 1);
    let mut g = f.clone();
    f.connect("a", "b", 9);
    f.disconnect("a", "b");
    g.disconnect("a", "b");
    assert_eq!(f.connections, g.connections);
}

#[test]
fn active_links_skip_missing_rooms() {
    let mut f: GravityField<u32, u32> = GravityField::new();
    f.set("r1", 10);
    f.set("r2", 20);
    f.set("r3", 30);
    f.connect("r1", "r2", 1);
    f.connect("r2", "ghost", 2);
    f.connect("r3", "r1", 3);
    assert_eq!(f.active_links(), vec![(0, 1, 1), (2, 0, 3)]);
}

#[test]
fn active_links_empty_without_connections() {
    let mut f: GravityField<u32, u32> = GravityField::new();
    f.set("r1", 10);
    assert!(f.active_links().is_empty());
}
