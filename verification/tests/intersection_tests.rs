use pathtracer::intersection::{closest_hit, Closest, Roots};

fn d(x: f64) -> u64 {
    x.to_bits()
}

fn roots(near: f64, far: f64) -> Option<Roots> {
    Roots::new(d(1.0), d(near), d(far))
}

/// The parameters at which a ray from `origin` along the x axis crosses a
/// sphere about (`center`, 0, 0).
fn roots_on_axis(origin: f64, center: f64, radius: f64) -> Option<Roots> {
    let oc = origin - center;
    let a = 1.0;
    let half_b = oc;
    let c = oc * oc - radius * radius;
    let discriminant: f64 = half_b * half_b - a * c;
    let sqrtd = discriminant.sqrt();
    Roots::new(d(discriminant), d((-half_b - sqrtd) / a), d((-half_b + sqrtd) / a))
}

const FAR_AWAY: f64 = f64::INFINITY;

#[test]
fn a_negative_discriminant_means_no_crossing() {
    assert!(Roots::new(d(0.0), d(2.0), d(2.0)).is_some());
    assert!(Roots::new(d(-0.0), d(2.0), d(2.0)).is_some());
    assert!(Roots::new(d(4.0), d(1.0), d(3.0)).is_some());
    assert!(Roots::new(d(1e-300), d(1.0), d(3.0)).is_some());
    assert!(Roots::new(d(-1e-300), d(1.0), d(3.0)).is_none());
    assert!(Roots::new(d(-4.0), d(1.0), d(3.0)).is_none());
    assert!(Roots::new(d(-4.0), d(f64::NAN), d(f64::NAN)).is_none());
}

#[test]
fn roots_are_held_in_rising_order() {
    let r = roots(3.0, 7.0).unwrap();
    assert_eq!((r.smaller(), r.larger()), (d(3.0), d(7.0)));
    let r = roots(7.0, 3.0).unwrap();
    assert_eq!((r.smaller(), r.larger()), (d(3.0), d(7.0)));
    let r = roots(5.0, 5.0).unwrap();
    assert_eq!((r.smaller(), r.larger()), (d(5.0), d(5.0)));
    let r = roots(2.0, -2.0).unwrap();
    assert_eq!((r.smaller(), r.larger()), (d(-2.0), d(2.0)));
    assert_eq!(roots(7.0, 3.0), roots(3.0, 7.0));
}

#[test]
fn what_is_no_number_is_no_root() {
    assert_eq!(roots(f64::NAN, 1.0), None);
    assert_eq!(roots(1.0, f64::NAN), None);
    assert_eq!(roots(f64::NAN, f64::NAN), None);
    assert!(roots(f64::NEG_INFINITY, f64::INFINITY).is_some());
}

#[test]
fn the_smaller_root_is_taken_where_it_lies_between_the_bounds() {
    assert_eq!(roots(3.0, 7.0).unwrap().hit(d(0.0), d(10.0)), Some(d(3.0)));
    assert_eq!(roots(3.0, 7.0).unwrap().hit(d(2.0), d(4.0)), Some(d(3.0)));
    assert_eq!(roots(-3.0, 7.0).unwrap().hit(d(-5.0), d(10.0)), Some(d(-3.0)));
    assert_eq!(roots(2.5, 3.5).unwrap().hit(d(0.001), d(FAR_AWAY)), Some(d(2.5)));
}

#[test]
fn the_larger_root_is_taken_where_only_it_lies_between_the_bounds() {
    assert_eq!(roots(3.0, 7.0).unwrap().hit(d(3.0), d(10.0)), Some(d(7.0)));
    assert_eq!(roots(3.0, 7.0).unwrap().hit(d(5.0), d(10.0)), Some(d(7.0)));
    assert_eq!(roots(-3.0, 7.0).unwrap().hit(d(0.001), d(FAR_AWAY)), Some(d(7.0)));
    assert_eq!(roots(0.0, 7.0).unwrap().hit(d(0.001), d(FAR_AWAY)), Some(d(7.0)));
}

#[test]
fn no_root_between_the_bounds_is_no_hit() {
    assert_eq!(roots(3.0, 7.0).unwrap().hit(d(7.0), d(10.0)), None);
    assert_eq!(roots(3.0, 7.0).unwrap().hit(d(0.0), d(3.0)), None);
    assert_eq!(roots(3.0, 7.0).unwrap().hit(d(4.0), d(6.0)), None);
    assert_eq!(roots(3.0, 7.0).unwrap().hit(d(4.0), d(7.0)), None);
    assert_eq!(roots(3.0, 7.0).unwrap().hit(d(10.0), d(0.0)), None);
    assert_eq!(roots(-7.0, -3.0).unwrap().hit(d(0.001), d(FAR_AWAY)), None);
}

#[test]
fn the_bounds_themselves_are_left_out() {
    assert_eq!(roots(3.0, 3.0).unwrap().hit(d(3.0), d(10.0)), None);
    assert_eq!(roots(3.0, 3.0).unwrap().hit(d(0.0), d(3.0)), None);
    assert_eq!(roots(3.0, 3.0).unwrap().hit(d(2.0), d(4.0)), Some(d(3.0)));
    assert_eq!(roots(1.0, FAR_AWAY).unwrap().hit(d(1.0), d(FAR_AWAY)), None);
}

#[test]
fn bounds_that_are_no_numbers_hold_nothing() {
    assert_eq!(roots(3.0, 7.0).unwrap().hit(d(f64::NAN), d(10.0)), None);
    assert_eq!(roots(3.0, 7.0).unwrap().hit(d(0.0), d(f64::NAN)), None);
    assert_eq!(closest_hit(&vec![roots(3.0, 7.0)], d(f64::NAN), d(10.0)), None);
    assert_eq!(closest_hit(&vec![roots(3.0, 7.0)], d(0.0), d(f64::NAN)), None);
}

#[test]
fn an_empty_scene_is_never_hit() {
    assert_eq!(closest_hit(&vec![], d(0.0), d(100.0)), None);
}

#[test]
fn a_scene_of_misses_is_never_hit() {
    assert_eq!(closest_hit(&vec![None, None, None], d(0.0), d(100.0)), None);
    assert_eq!(closest_hit(&vec![roots(-9.0, -4.0), None], d(0.0), d(100.0)), None);
    assert_eq!(closest_hit(&vec![roots(200.0, 300.0)], d(0.0), d(100.0)), None);
}

#[test]
fn the_closest_of_several_hits_is_found() {
    let scene = vec![roots(50.0, 60.0), None, roots(20.0, 30.0), roots(40.0, 45.0)];
    let hit = |index, t: f64| Some(Closest { index, t: d(t) });
    assert_eq!(closest_hit(&scene, d(0.0), d(100.0)), hit(2, 20.0));
    assert_eq!(closest_hit(&scene, d(20.0), d(100.0)), hit(2, 30.0));
    assert_eq!(closest_hit(&scene, d(30.0), d(100.0)), hit(3, 40.0));
    assert_eq!(closest_hit(&scene, d(45.0), d(100.0)), hit(0, 50.0));
    assert_eq!(closest_hit(&scene, d(60.0), d(100.0)), None);
    assert_eq!(closest_hit(&scene, d(0.0), d(20.0)), None);
    assert_eq!(closest_hit(&scene, d(0.0), d(20.5)), hit(2, 20.0));
}

#[test]
fn the_order_of_the_surfaces_does_not_move_the_closest_hit() {
    let a = roots(50.0, 60.0);
    let b = roots(20.0, 30.0);
    let c = roots(10.0, 90.0);
    let orders = [[a, b, c], [a, c, b], [b, a, c], [b, c, a], [c, a, b], [c, b, a]];
    for order in orders {
        let hit = closest_hit(&order.to_vec(), d(15.0), d(100.0)).unwrap();
        assert_eq!(hit.t, d(20.0));
        assert_eq!(order[hit.index], b);
    }
}

#[test]
fn of_two_surfaces_hit_at_one_place_the_first_is_kept() {
    let scene = vec![roots(20.0, 30.0), roots(20.0, 40.0), roots(5.0, 20.0)];
    assert_eq!(
        closest_hit(&scene, d(10.0), d(100.0)),
        Some(Closest { index: 0, t: d(20.0) })
    );
}

#[test]
fn a_ray_inside_a_sphere_hits_it_at_the_larger_root() {
    let scene = vec![roots_on_axis(0.0, 0.0, 2.0)];
    let hit = closest_hit(&scene, d(0.001), d(FAR_AWAY)).unwrap();
    assert_eq!(hit, Closest { index: 0, t: d(2.0) });
}

#[test]
fn a_ray_aimed_at_the_center_hits_at_the_distance_less_the_radius() {
    for (distance, radius) in [(3.0, 0.5), (10.0, 1.0), (1000.5, 1000.0), (2.0, 0.25)] {
        let scene = vec![roots_on_axis(0.0, distance, radius)];
        let hit = closest_hit(&scene, d(0.001), d(FAR_AWAY)).unwrap();
        assert_eq!(hit, Closest { index: 0, t: d(distance - radius) });
    }
}

#[test]
fn a_sphere_behind_the_ray_is_not_hit() {
    let scene = vec![roots_on_axis(0.0, -3.0, 0.5)];
    assert_eq!(closest_hit(&scene, d(0.001), d(FAR_AWAY)), None);
}

#[test]
fn a_ray_that_passes_a_sphere_by_does_not_cross_it() {
    let oc_squared = 3.0 * 3.0 + 2.0 * 2.0;
    let half_b = -3.0;
    let discriminant: f64 = half_b * half_b - (oc_squared - 1.0);
    let sqrtd = discriminant.sqrt();
    let missed = Roots::new(d(discriminant), d(-half_b - sqrtd), d(-half_b + sqrtd));
    assert_eq!(missed, None);
    assert_eq!(closest_hit(&vec![missed], d(0.001), d(FAR_AWAY)), None);
}

#[test]
fn the_nearer_of_two_spheres_on_the_axis_is_hit() {
    let scene = vec![roots_on_axis(0.0, 8.0, 1.0), roots_on_axis(0.0, 3.0, 0.5)];
    let hit = closest_hit(&scene, d(0.001), d(FAR_AWAY)).unwrap();
    assert_eq!(hit, Closest { index: 1, t: d(2.5) });
}
