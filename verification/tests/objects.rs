use glens::object::{Disk, Sphere};
use glens::pic::Color;
use glens::scalar::Scalar;
use glens::vector::Vec3;

fn scalar(value: f32) -> Scalar {
    Scalar::from_bits(value.to_bits())
}

fn point(p: [f32; 3]) -> Vec3 {
    Vec3::new(scalar(p[0]), scalar(p[1]), scalar(p[2]))
}

fn floats(v: Vec3) -> [f32; 3] {
    [f32::from_bits(v.x.bits), f32::from_bits(v.y.bits), f32::from_bits(v.z.bits)]
}

fn distance_squared(a: &[f32; 3], b: &[f32; 3]) -> f32 {
    let mut d = vec3::new_zero::<f32>();
    vec3::sub(&mut d, a, b);
    vec3::len_sq(&d)
}

/// Measures the segment against the sphere and asks the sphere.
fn segment_meets_sphere(sphere: &Sphere, before: [f32; 3], after: [f32; 3]) -> bool {
    let centre = floats(sphere.position);
    let radius = f32::from_bits(sphere.radius.bits);
    sphere.intersect_sphere(
        scalar(distance_squared(&before, &centre)),
        scalar(distance_squared(&after, &centre)),
        scalar(radius * radius),
    )
}

/// Measures the segment against the disk and asks the disk.
fn disk_answer(disk: &Disk, before: [f32; 3], after: [f32; 3]) -> Option<Color> {
    let centre = floats(disk.position);
    let normal = floats(disk.normal);
    let radius = f32::from_bits(disk.radius.bits);
    let mut v = vec3::new_zero::<f32>();
    vec3::sub(&mut v, &after, &before);
    let mut to_centre = vec3::new_zero::<f32>();
    vec3::sub(&mut to_centre, &centre, &before);
    let t = vec3::dot(&to_centre, &normal) / vec3::dot(&v, &normal);
    let mut along = vec3::new_zero::<f32>();
    vec3::smul(&mut along, &v, &t);
    let mut crossing = vec3::new_zero::<f32>();
    vec3::add(&mut crossing, &before, &along);
    disk.intersect(scalar(t), scalar(distance_squared(&crossing, &centre)), scalar(radius * radius))
}

fn unit_sphere() -> Sphere {
    Sphere {
        position: point([0.0, 0.0, 0.0]),
        color: Color(scalar(0.0), scalar(0.0), scalar(0.0)),
        radius: scalar(1.0),
    }
}

fn flat_disk() -> Disk {
    Disk {
        position: point([0.0, 0.0, 1.0]),
        color: Color(scalar(0.6), scalar(1.0), scalar(0.8)),
        radius: scalar(0.5),
        normal: point([0.0, 0.0, 1.0]),
    }
}

#[test]
fn test_sphere_intersect() {
    let sph = unit_sphere();
    assert!(segment_meets_sphere(&sph, [0.0, 0.0, 0.0], [1.0, 0.0, 0.0]));
    assert!(segment_meets_sphere(&sph, [0.0, 0.0, 0.0], [2.0, 0.0, 0.0]));
    assert!(segment_meets_sphere(&sph, [0.0, 0.0, 0.0], [0.5, 0.0, 0.0]));
    assert!(!segment_meets_sphere(&sph, [1.0, 1.0, 1.0], [2.0, 1.0, 1.0]))
}

#[test]
fn point_inside_sphere_is_strict() {
    let sph = unit_sphere();
    assert!(sph.inside_sphere(scalar(0.0), scalar(1.0)));
    assert!(sph.inside_sphere(scalar(0.999_999_9), scalar(1.0)));
    assert!(!sph.inside_sphere(scalar(1.0), scalar(1.0)));
    assert!(!sph.inside_sphere(scalar(1.000_000_1), scalar(1.0)));
    assert!(!sph.inside_sphere(scalar(f32::NAN), scalar(1.0)));
    assert!(!sph.inside_sphere(scalar(0.5), scalar(f32::NAN)));
}

#[test]
fn either_end_inside_sphere_is_a_hit() {
    let sph = unit_sphere();
    assert!(segment_meets_sphere(&sph, [0.2, 0.1, 0.0], [9.0, 9.0, 9.0]));
    assert!(segment_meets_sphere(&sph, [9.0, 9.0, 9.0], [0.2, 0.1, 0.0]));
    assert!(segment_meets_sphere(&sph, [0.2, 0.1, 0.0], [0.0, 0.3, 0.1]));
}

#[test]
fn end_on_the_surface_is_outside() {
    let sph = unit_sphere();
    assert!(!segment_meets_sphere(&sph, [1.0, 0.0, 0.0], [2.0, 0.0, 0.0]));
    assert!(!segment_meets_sphere(&sph, [0.0, -1.0, 0.0], [0.0, 0.0, 1.0]));
}

#[test]
fn pass_through_sphere_is_a_miss() {
    let sph = unit_sphere();
    assert!(!segment_meets_sphere(&sph, [-2.0, 0.0, 0.0], [2.0, 0.0, 0.0]));
    assert!(!segment_meets_sphere(&sph, [-1.5, 0.2, 0.0], [1.5, 0.2, 0.0]));
}

#[test]
fn sphere_gives_its_colour_on_a_hit() {
    let red = Color(scalar(1.0), scalar(0.0), scalar(0.0));
    let sph = Sphere { position: point([0.0, 0.0, 0.0]), color: red, radius: scalar(2.0) };
    assert_eq!(sph.intersect(scalar(1.0), scalar(9.0), scalar(4.0)), Some(red));
    assert_eq!(sph.intersect(scalar(9.0), scalar(3.5), scalar(4.0)), Some(red));
    assert_eq!(sph.intersect(scalar(4.0), scalar(9.0), scalar(4.0)), None);
}

#[test]
fn disk_is_hit_where_the_step_crosses_it() {
    let disk = flat_disk();
    assert_eq!(disk_answer(&disk, [0.1, 0.1, 0.0], [0.1, 0.1, 2.0]), Some(disk.color));
    assert_eq!(disk_answer(&disk, [0.1, 0.1, 2.0], [0.1, 0.1, 0.0]), Some(disk.color));
    assert_eq!(disk_answer(&disk, [0.4, 0.0, 0.5], [0.0, 0.4, 1.5]), Some(disk.color));
}

#[test]
fn disk_is_hit_at_either_end_of_the_step() {
    let disk = flat_disk();
    assert_eq!(disk_answer(&disk, [0.0, 0.0, 1.0], [0.0, 0.0, 2.0]), Some(disk.color));
    assert_eq!(disk_answer(&disk, [0.0, 0.0, 0.0], [0.0, 0.0, 1.0]), Some(disk.color));
    assert!(disk.intersect_disk(scalar(0.0), scalar(0.1), scalar(0.25)));
    assert!(disk.intersect_disk(scalar(-0.0), scalar(0.1), scalar(0.25)));
    assert!(disk.intersect_disk(scalar(1.0), scalar(0.1), scalar(0.25)));
}

#[test]
fn disk_is_missed_beside_its_rim() {
    let disk = flat_disk();
    assert_eq!(disk_answer(&disk, [0.5, 0.0, 0.0], [0.5, 0.0, 2.0]), None);
    assert_eq!(disk_answer(&disk, [0.6, 0.0, 0.0], [0.6, 0.0, 2.0]), None);
    assert!(!disk.intersect_disk(scalar(0.5), scalar(0.25), scalar(0.25)));
}

#[test]
fn disk_is_missed_when_the_plane_is_not_crossed_within_the_step() {
    let disk = flat_disk();
    // the plane lies ahead of the step, behind it, and along it
    assert_eq!(disk_answer(&disk, [0.0, 0.0, 0.0], [0.0, 0.0, 0.9]), None);
    assert_eq!(disk_answer(&disk, [0.0, 0.0, 1.1], [0.0, 0.0, 2.0]), None);
    assert_eq!(disk_answer(&disk, [0.0, 0.0, 0.5], [1.0, 0.0, 0.5]), None);
    assert_eq!(disk_answer(&disk, [0.0, 0.0, 1.0], [0.1, 0.0, 1.0]), None);
    for t in [-0.5f32, -1.0e-30, 1.000_000_1, 7.0, f32::INFINITY, f32::NEG_INFINITY, f32::NAN] {
        assert!(!disk.intersect_disk(scalar(t), scalar(0.0), scalar(0.25)), "t = {}", t);
    }
}
