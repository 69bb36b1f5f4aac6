use agent_engine::field2d::{toroidal_distance, toroidal_transform, Field2D, Int2D};

#[test]
fn transform_wraps_negatives_into_range() {
    // A small negative offset lands just below the length.
    assert_eq!(toroidal_transform(-1, 10), 9);
    assert_eq!(toroidal_transform(-10, 10), 0);
    assert_eq!(toroidal_transform(25, 10), 5);
    let r = toroidal_transform(-3, 7);
    assert!(0 <= r && r < 7);
}

#[test]
fn wrap_distance_crosses_the_seam() {
    // 0.1 and L - 0.1 on an axis of length 10.0, at a scale of 1000 units
    // per whole coordinate: the wrap distance is 0.2.
    let l = 10_000;
    assert_eq!(toroidal_distance(100, l - 100, l), 200);
    assert_eq!(toroidal_distance(0, 5_000, l), 5_000);
    assert_eq!(toroidal_distance(2_000, 2_500, l), 500);
}

#[test]
fn placement_round_trip() {
    let mut f = Field2D::new(100, 100, 10, false);
    let p = Int2D { x: 37, y: 81 };
    f.set_object_location(5, p);
    f.update();
    assert_eq!(f.get_location(5), Some(p));
    let at = f.get_objects_at_location(p);
    assert!(at.contains(&5));
}

#[test]
fn writes_invisible_until_update() {
    let mut f = Field2D::new(100, 100, 10, false);
    f.set_object_location(1, Int2D { x: 5, y: 5 });
    assert_eq!(f.get_location(1), None);
    f.update();
    assert_eq!(f.get_location(1), Some(Int2D { x: 5, y: 5 }));

    f.set_object_location(1, Int2D { x: 6, y: 5 });
    assert_eq!(f.get_location(1), Some(Int2D { x: 5, y: 5 }));
    f.update();
    assert_eq!(f.get_location(1), Some(Int2D { x: 6, y: 5 }));
}

#[test]
fn moving_changes_bucket_membership() {
    let mut f = Field2D::new(100, 100, 10, false);
    f.set_object_location(1, Int2D { x: 5, y: 5 });
    f.update();
    f.set_object_location(1, Int2D { x: 95, y: 95 });
    f.update();
    assert!(!f.get_objects_at_location(Int2D { x: 5, y: 5 }).contains(&1));
    assert!(f.get_objects_at_location(Int2D { x: 95, y: 95 }).contains(&1));
}

#[test]
fn neighbors_on_torus_cross_the_seam() {
    // A 10 x 10 torus at scale 1000, pitch 5.0: agents at (1, 1) and
    // (9, 9) both lie within 2.0 of the origin by wrap-around.
    let mut f = Field2D::new(10_000, 10_000, 5_000, true);
    f.set_object_location(1, Int2D { x: 1_000, y: 1_000 });
    f.set_object_location(2, Int2D { x: 9_000, y: 9_000 });
    f.update();
    let near = f.get_neighbors_within_distance(Int2D { x: 0, y: 0 }, 2_000);
    assert!(near.contains(&1));
    assert!(near.contains(&2));
    assert_eq!(near.len(), 2);
}

#[test]
fn neighbors_without_torus_stop_at_the_edge() {
    let mut f = Field2D::new(10_000, 10_000, 5_000, false);
    f.set_object_location(1, Int2D { x: 1_000, y: 1_000 });
    f.set_object_location(2, Int2D { x: 9_000, y: 9_000 });
    f.update();
    let near = f.get_neighbors_within_distance(Int2D { x: 0, y: 0 }, 2_000);
    assert!(near.contains(&1));
    assert!(!near.contains(&2));
    assert_eq!(near.len(), 1);
}

#[test]
fn zero_radius_returns_the_exact_spot_only() {
    let mut f = Field2D::new(100, 100, 10, false);
    f.set_object_location(1, Int2D { x: 50, y: 50 });
    f.set_object_location(2, Int2D { x: 51, y: 50 });
    f.update();
    let near = f.get_neighbors_within_distance(Int2D { x: 50, y: 50 }, 0);
    assert!(near.contains(&1));
    assert!(!near.contains(&2));
}

#[test]
fn wide_torus_radius_sees_everyone_once() {
    let mut f = Field2D::new(1_000, 1_000, 100, true);
    for i in 0..20u64 {
        f.set_object_location(i, Int2D { x: (i as i64) * 50, y: (i as i64) * 37 % 1_000 });
    }
    f.update();
    let near = f.get_neighbors_within_distance(Int2D { x: 500, y: 500 }, 900);
    assert_eq!(near.len(), 20);
    let mut seen = near.clone();
    seen.sort();
    seen.dedup();
    assert_eq!(seen.len(), 20);
}

#[test]
fn uneven_pitch_keeps_the_wrap_exact() {
    // The axis length is not a multiple of the pitch; neighbors across the
    // seam must still be found.
    let mut f = Field2D::new(91, 73, 10, true);
    f.set_object_location(1, Int2D { x: 89, y: 1 });
    f.update();
    let near = f.get_neighbors_within_distance(Int2D { x: 10, y: 1 }, 12);
    assert!(near.contains(&1));
}
