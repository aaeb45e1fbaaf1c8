use lightctl::errors::ApiError;
use lightctl::models::{Devices, NewDevices, Points};
use lightctl::reconcile::{classify, fill_diff, reconcile, reduce_diff};

fn point(id: i32, device_id: i32, device_position: i32) -> Points {
    Points { id, device_id, device_position, val: 0, active: false, tag: None }
}

#[test]
fn plan_classifies_delete_insert_update() {
    let db = vec![
        Devices { id: 1, adr: 0x08, endpoint_count: 4 },
        Devices { id: 2, adr: 0x09, endpoint_count: 2 },
        Devices { id: 3, adr: 0x0a, endpoint_count: 3 },
    ];
    let detected = vec![
        NewDevices { adr: 0x08, endpoint_count: 6 },
        NewDevices { adr: 0x0a, endpoint_count: 3 },
        NewDevices { adr: 0x0b, endpoint_count: 1 },
    ];
    let plan = classify(&db, &detected);
    assert_eq!(plan.deletes, vec![2]);
    assert_eq!(plan.updates, vec![(1, 6)]);
    assert_eq!(plan.inserts, vec![NewDevices { adr: 0x0b, endpoint_count: 1 }]);
}

#[test]
fn discovery_example_updates_and_inserts() {
    // one persisted unit at 0x08 with 4 endpoints, its 4 points in place
    let db = vec![Devices { id: 1, adr: 0x08, endpoint_count: 4 }];
    let points = vec![point(1, 1, 0), point(2, 1, 1), point(3, 1, 2), point(4, 1, 3)];
    // discovery: 0x08 grew to 6 endpoints, a new unit at 0x09 with 2
    let detected = vec![
        NewDevices { adr: 0x08, endpoint_count: 6 },
        NewDevices { adr: 0x09, endpoint_count: 2 },
    ];
    let (devices, new_points) = reconcile(&db, &points, &detected, 2, 5);
    assert_eq!(
        devices,
        vec![
            Devices { id: 1, adr: 0x08, endpoint_count: 6 },
            Devices { id: 2, adr: 0x09, endpoint_count: 2 },
        ],
    );
    // the 4 old points survive untouched; 2 appended past the old maximum
    assert_eq!(new_points.len(), 8);
    assert_eq!(new_points[..4], points[..]);
    assert_eq!(new_points[4], point(5, 1, 4));
    assert_eq!(new_points[5], point(6, 1, 5));
    // the new unit gets 2 points at positions 0 and 1
    assert_eq!(new_points[6], point(7, 2, 0));
    assert_eq!(new_points[7], point(8, 2, 1));
}

#[test]
fn addresses_and_counts_agree_after_reconciliation() {
    let db = vec![
        Devices { id: 1, adr: 0x10, endpoint_count: 2 },
        Devices { id: 2, adr: 0x11, endpoint_count: 1 },
    ];
    let points = vec![point(1, 1, 0), point(2, 1, 1), point(3, 2, 0)];
    let detected = vec![
        NewDevices { adr: 0x11, endpoint_count: 3 },
        NewDevices { adr: 0x12, endpoint_count: 1 },
    ];
    let (devices, new_points) = reconcile(&db, &points, &detected, 3, 4);
    let mut adrs: Vec<i32> = devices.iter().map(|d| d.adr).collect();
    adrs.sort();
    assert_eq!(adrs, vec![0x11, 0x12]);
    for d in &devices {
        let owned = new_points.iter().filter(|p| p.device_id == d.id).count();
        assert_eq!(owned as i32, d.endpoint_count);
    }
}

#[test]
fn second_run_changes_nothing() {
    let db = vec![Devices { id: 1, adr: 0x08, endpoint_count: 1 }];
    let points = vec![point(1, 1, 0)];
    let detected = vec![
        NewDevices { adr: 0x08, endpoint_count: 3 },
        NewDevices { adr: 0x20, endpoint_count: 2 },
    ];
    let (d1, p1) = reconcile(&db, &points, &detected, 2, 2);
    let next_device_id = d1.iter().map(|d| d.id).max().unwrap() + 1;
    let next_point_id = p1.iter().map(|p| p.id).max().unwrap() + 1;
    let (d2, p2) = reconcile(&d1, &p1, &detected, next_device_id, next_point_id);
    assert_eq!(d1, d2);
    assert_eq!(p1, p2);
}

#[test]
fn empty_persisted_and_empty_discovery_is_a_noop() {
    let (devices, points) = reconcile(&Vec::new(), &Vec::new(), &Vec::new(), 1, 1);
    assert!(devices.is_empty());
    assert!(points.is_empty());
}

#[test]
fn vanished_device_cascades_its_points() {
    let db = vec![
        Devices { id: 1, adr: 0x08, endpoint_count: 2 },
        Devices { id: 2, adr: 0x09, endpoint_count: 1 },
    ];
    let points = vec![point(1, 1, 0), point(2, 1, 1), point(3, 2, 0)];
    let detected = vec![NewDevices { adr: 0x09, endpoint_count: 1 }];
    let (devices, new_points) = reconcile(&db, &points, &detected, 3, 4);
    assert_eq!(devices, vec![Devices { id: 2, adr: 0x09, endpoint_count: 1 }]);
    assert_eq!(new_points, vec![point(3, 2, 0)]);
}

#[test]
fn excess_points_leave_from_the_highest_positions() {
    let db = vec![Devices { id: 1, adr: 0x08, endpoint_count: 4 }];
    let points = vec![point(1, 1, 3), point(2, 1, 0), point(3, 1, 2), point(4, 1, 1)];
    let detected = vec![NewDevices { adr: 0x08, endpoint_count: 2 }];
    let (devices, new_points) = reconcile(&db, &points, &detected, 2, 5);
    assert_eq!(devices, vec![Devices { id: 1, adr: 0x08, endpoint_count: 2 }]);
    // positions 2 and 3 go; stored order of the survivors is kept
    assert_eq!(new_points, vec![point(2, 1, 0), point(4, 1, 1)]);
}

#[test]
fn zero_endpoint_device_owns_no_points() {
    let db = vec![Devices { id: 1, adr: 0x08, endpoint_count: 1 }];
    let points = vec![point(1, 1, 0)];
    let detected = vec![NewDevices { adr: 0x08, endpoint_count: 0 }];
    let (devices, new_points) = reconcile(&db, &points, &detected, 2, 2);
    assert_eq!(devices, vec![Devices { id: 1, adr: 0x08, endpoint_count: 0 }]);
    assert!(new_points.is_empty());
}

#[test]
fn fill_continues_past_the_current_maximum() {
    let filled = fill_diff(9, 6, 3, 100);
    assert_eq!(filled.len(), 3);
    for (k, p) in filled.iter().enumerate() {
        assert_eq!(p.device_id, 9);
        assert_eq!(p.device_position, 7 + k as i32);
        assert_eq!(p.id, 100 + k as i32);
        assert_eq!(p.val, 0);
        assert!(!p.active);
        assert_eq!(p.tag, None);
    }
}

#[test]
fn reduce_names_the_highest_positions_first() {
    let points = vec![point(1, 1, 2), point(2, 1, 5), point(3, 1, 0), point(4, 1, 3)];
    let ids = reduce_diff(&points, 2).unwrap();
    assert_eq!(ids, vec![2, 4]);
}

#[test]
fn reduce_beyond_available_is_a_consistency_fault() {
    let points = vec![point(1, 1, 0)];
    assert_eq!(reduce_diff(&points, 2), Err(ApiError::InternalErr));
    assert_eq!(reduce_diff(&Vec::new(), 1), Err(ApiError::InternalErr));
}

#[test]
fn reduce_of_nothing_is_fine() {
    assert_eq!(reduce_diff(&Vec::new(), 0), Ok(Vec::new()));
}
