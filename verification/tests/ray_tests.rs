use pathtracer::ray::{ray_color, spent, Encounter, Radiance};

#[test]
fn depth_zero_is_black_whatever_the_ray_met() {
    assert_eq!(ray_color(0, Encounter::Miss), Radiance::Black);
    assert_eq!(ray_color(0, Encounter::Absorbed), Radiance::Black);
    assert_eq!(ray_color(0, Encounter::Scattered), Radiance::Black);
}

#[test]
fn negative_depth_is_black() {
    assert_eq!(ray_color(-1, Encounter::Miss), Radiance::Black);
    assert_eq!(ray_color(i32::MIN, Encounter::Scattered), Radiance::Black);
}

#[test]
fn a_miss_shows_the_background() {
    assert_eq!(ray_color(1, Encounter::Miss), Radiance::Background);
    assert_eq!(ray_color(50, Encounter::Miss), Radiance::Background);
}

#[test]
fn an_absorbed_ray_is_black() {
    assert_eq!(ray_color(50, Encounter::Absorbed), Radiance::Black);
}

#[test]
fn a_scattered_ray_goes_on_one_bounce_deeper() {
    assert_eq!(ray_color(50, Encounter::Scattered), Radiance::Attenuated { depth: 49 });
    assert_eq!(ray_color(1, Encounter::Scattered), Radiance::Attenuated { depth: 0 });
    assert_eq!(
        ray_color(i32::MAX, Encounter::Scattered),
        Radiance::Attenuated { depth: i32::MAX - 1 }
    );
}

#[test]
fn only_depths_above_zero_leave_a_bounce() {
    assert!(spent(0));
    assert!(spent(-5));
    assert!(!spent(1));
    assert!(!spent(50));
}

#[test]
fn a_path_that_always_scatters_ends_black_after_its_depth() {
    let mut depth = 50;
    let mut bounces = 0;
    loop {
        match ray_color(depth, Encounter::Scattered) {
            Radiance::Attenuated { depth: rest } => {
                depth = rest;
                bounces += 1;
            }
            other => {
                assert_eq!(other, Radiance::Black);
                break;
            }
        }
    }
    assert_eq!(bounces, 50);
}
