use lightctl::i2c::LightDevices;
use lightctl::models::Points;

fn point(id: i32, device_id: i32, device_position: i32, val: i32, active: bool) -> Points {
    Points { id, device_id, device_position, val, active, tag: None }
}

#[test]
fn inactive_points_map_to_zero() {
    let points = vec![point(1, 7, 0, 1200, false), point(2, 7, 1, 900, true)];
    let mapped = LightDevices::convert_points(points, false);
    assert_eq!(mapped.len(), 1);
    assert_eq!(mapped[0].0, 7);
    assert_eq!(mapped[0].1, vec![0, 900]);
}

#[test]
fn override_maps_raw_values() {
    let points = vec![point(1, 7, 0, 1200, false), point(2, 7, 1, 900, false)];
    let mapped = LightDevices::convert_points(points, true);
    assert_eq!(mapped[0].1, vec![1200, 900]);
}

#[test]
fn mapper_is_deterministic() {
    let mk = || vec![point(1, 3, 0, 5, true), point(2, 9, 0, 6, true), point(3, 3, 1, 7, true)];
    let a = LightDevices::convert_points(mk(), false);
    let b = LightDevices::convert_points(mk(), false);
    assert_eq!(a, b);
}

#[test]
fn arrays_follow_device_position_order() {
    // stored out of wire order: positions 2, 0, 1
    let points = vec![
        point(10, 4, 2, 300, true),
        point(11, 4, 0, 100, true),
        point(12, 4, 1, 200, true),
    ];
    let mapped = LightDevices::convert_points(points, false);
    assert_eq!(mapped.len(), 1);
    assert_eq!(mapped[0].1, vec![100, 200, 300]);
}

#[test]
fn one_array_per_device_in_first_occurrence_order() {
    let points = vec![
        point(1, 5, 0, 11, true),
        point(2, 2, 0, 22, true),
        point(3, 5, 1, 33, true),
    ];
    let mapped = LightDevices::convert_points(points, false);
    assert_eq!(mapped.len(), 2);
    assert_eq!(mapped[0].0, 5);
    assert_eq!(mapped[0].1, vec![11, 33]);
    assert_eq!(mapped[1].0, 2);
    assert_eq!(mapped[1].1, vec![22]);
}

#[test]
fn empty_input_maps_to_nothing() {
    let mapped = LightDevices::convert_points(Vec::new(), false);
    assert!(mapped.is_empty());
}
