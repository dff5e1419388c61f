use pathtracer::hittable::HitRecord;
use pathtracer::vector::Vec3;

fn vec3(x: f64, y: f64, z: f64) -> Vec3 {
    Vec3 { x: x.to_bits(), y: y.to_bits(), z: z.to_bits() }
}

fn dot(a: (f64, f64, f64), b: (f64, f64, f64)) -> f64 {
    a.0 * b.0 + a.1 * b.1 + a.2 * b.2
}

#[test]
fn a_record_begins_as_zeros() {
    let record = HitRecord::default();
    assert_eq!(record.p, vec3(0.0, 0.0, 0.0));
    assert_eq!(record.normal, vec3(0.0, 0.0, 0.0));
    assert_eq!(record.t, 0.0f64.to_bits());
    assert!(!record.is_front_face);
}

#[test]
fn a_ray_from_outside_keeps_the_outward_normal() {
    let mut record = HitRecord::default();
    let outward = vec3(0.0, 0.0, 1.0);
    record.set_face_normal(dot((0.0, 0.0, -1.0), (0.0, 0.0, 1.0)).to_bits(), &outward);
    assert!(record.is_front_face);
    assert_eq!(record.normal, outward);
}

#[test]
fn a_ray_from_inside_turns_the_normal_about() {
    let mut record = HitRecord::default();
    let outward = vec3(0.0, 0.6, 0.8);
    record.set_face_normal(dot((0.0, 1.0, 1.0), (0.0, 0.6, 0.8)).to_bits(), &outward);
    assert!(!record.is_front_face);
    assert_eq!(record.normal, vec3(-0.0, -0.6, -0.8));
}

#[test]
fn a_ray_along_the_surface_counts_as_from_inside() {
    let mut record = HitRecord::default();
    let outward = vec3(0.0, 1.0, 0.0);
    record.set_face_normal(0.0f64.to_bits(), &outward);
    assert!(!record.is_front_face);
    assert_eq!(record.normal, vec3(-0.0, -1.0, -0.0));
    record.set_face_normal((-0.0f64).to_bits(), &outward);
    assert!(!record.is_front_face);
}

#[test]
fn the_point_and_the_parameter_are_left_alone() {
    let mut record = HitRecord {
        p: vec3(1.0, 2.0, 3.0),
        normal: vec3(9.0, 9.0, 9.0),
        t: 2.5f64.to_bits(),
        is_front_face: false,
    };
    record.set_face_normal((-1.0f64).to_bits(), &vec3(1.0, 0.0, 0.0));
    assert_eq!(record.p, vec3(1.0, 2.0, 3.0));
    assert_eq!(record.t, 2.5f64.to_bits());
    assert_eq!(record.normal, vec3(1.0, 0.0, 0.0));
    assert!(record.is_front_face);
}

#[test]
fn the_normal_never_points_along_the_ray() {
    let directions = [(0.0, 0.0, -1.0), (1.0, 2.0, 3.0), (-1.0, 0.5, 0.25), (0.0, 1.0, 0.0)];
    let normals = [(0.0, 0.0, 1.0), (0.6, 0.8, 0.0), (0.0, -1.0, 0.0), (-0.6, 0.0, -0.8)];
    for direction in directions {
        for outward in normals {
            let mut record = HitRecord::default();
            let facing = dot(direction, outward);
            record.set_face_normal(facing.to_bits(), &vec3(outward.0, outward.1, outward.2));
            let n = record.normal;
            let kept = (f64::from_bits(n.x), f64::from_bits(n.y), f64::from_bits(n.z));
            assert!(dot(direction, kept) <= 0.0);
            assert_eq!(record.is_front_face, facing < 0.0);
        }
    }
}
