use std::cell::RefCell;
use std::rc::Rc;

use raycaster::hitable::{first_hit, HitRecord, Hitable, HitableList, Roots, Sphere};
use raycaster::ray::Ray;
use raycaster::scalar::Scalar;
use raycaster::vec::Vec3;

fn num(x: f32) -> Scalar {
    Scalar::from_bits(x.to_bits())
}

fn val(s: Scalar) -> f32 {
    f32::from_bits(s.to_bits())
}

fn v3(x: f32, y: f32, z: f32) -> Vec3 {
    Vec3::new(num(x), num(y), num(z))
}

fn parts(v: Vec3) -> [f32; 3] {
    [val(v.x()), val(v.y()), val(v.z())]
}

fn dot(a: [f32; 3], b: [f32; 3]) -> f32 {
    a[0] * b[0] + a[1] * b[1] + a[2] * b[2]
}

fn minus(a: [f32; 3], b: [f32; 3]) -> [f32; 3] {
    [a[0] - b[0], a[1] - b[1], a[2] - b[2]]
}

fn along(o: [f32; 3], d: [f32; 3], t: f32) -> [f32; 3] {
    [o[0] + t * d[0], o[1] + t * d[1], o[2] + t * d[2]]
}

fn roots_of(s: &Sphere, r: &Ray) -> Roots {
    let oc = minus(parts(r.origin()), parts(s.center()));
    let d = parts(r.direction());
    let radius = val(s.radius());
    let a = dot(d, d);
    let b = 2.0 * dot(oc, d);
    let c = dot(oc, oc) - radius * radius;
    let discriminant = b * b - 4.0 * a * c;
    Roots {
        discriminant: num(discriminant),
        near: num((-b - discriminant.sqrt()) / (2.0 * a)),
        far: num((-b + discriminant.sqrt()) / (2.0 * a)),
    }
}

/// A sphere with its arithmetic.
struct Ball(Sphere);

impl Ball {
    fn new(cx: f32, cy: f32, cz: f32, r: f32) -> Ball {
        Ball(Sphere::new(num(cx), num(cy), num(cz), num(r)))
    }
}

impl Hitable for Ball {
    fn hit(&self, r: &Ray, tmin: Scalar, tmax: Scalar) -> Option<HitRecord> {
        let t = roots_of(&self.0, r).select(tmin, tmax)?;
        let p = along(parts(r.origin()), parts(r.direction()), val(t));
        let out = minus(p, parts(self.0.center()));
        let radius = val(self.0.radius());
        Some(HitRecord {
            t,
            p: v3(p[0], p[1], p[2]),
            normal: v3(out[0] / radius, out[1] / radius, out[2] / radius),
        })
    }
}

/// An object that every ray crosses at the listed parameters, and that
/// notes the bounds it is asked with.
struct Marks {
    at: Vec<f32>,
    tag: f32,
    asked: Rc<RefCell<Vec<(f32, f32)>>>,
}

impl Marks {
    fn new(at: &[f32], tag: f32) -> Marks {
        Marks { at: at.to_vec(), tag, asked: Rc::new(RefCell::new(Vec::new())) }
    }
}

impl Hitable for Marks {
    fn hit(&self, _r: &Ray, tmin: Scalar, tmax: Scalar) -> Option<HitRecord> {
        self.asked.borrow_mut().push((val(tmin), val(tmax)));
        let mut best: Option<f32> = None;
        for &t in &self.at {
            if val(tmin) < t && t < val(tmax) && best.map_or(true, |b| t < b) {
                best = Some(t);
            }
        }
        best.map(|t| HitRecord { t: num(t), p: v3(self.tag, 0.0, 0.0), normal: v3(0.0, 1.0, 0.0) })
    }
}

fn ray(o: [f32; 3], d: [f32; 3]) -> Ray {
    Ray::new(&v3(o[0], o[1], o[2]), v3(d[0], d[1], d[2]))
}

fn roots(discriminant: f32, near: f32, far: f32) -> Roots {
    Roots { discriminant: num(discriminant), near: num(near), far: num(far) }
}

fn selected(r: Roots, tmin: f32, tmax: f32) -> Option<f32> {
    r.select(num(tmin), num(tmax)).map(val)
}

#[test]
fn select_takes_the_near_root_when_it_is_in_range() {
    assert_eq!(selected(roots(4.0, 0.5, 1.5), 0.0, f32::MAX), Some(0.5));
    assert_eq!(selected(roots(4.0, 0.5, 1.5), 0.25, 0.75), Some(0.5));
}

#[test]
fn select_takes_the_far_root_when_only_that_is_in_range() {
    assert_eq!(selected(roots(4.0, -0.5, 1.5), 0.0, f32::MAX), Some(1.5));
    assert_eq!(selected(roots(4.0, 0.5, 1.5), 1.0, 2.0), Some(1.5));
}

#[test]
fn select_takes_nothing_when_both_roots_are_out_of_range() {
    assert_eq!(selected(roots(4.0, -1.5, -0.5), 0.0, f32::MAX), None);
    assert_eq!(selected(roots(4.0, 5.0, 6.0), 0.0, 4.0), None);
    assert_eq!(selected(roots(4.0, 0.5, 1.5), 0.75, 1.25), None);
}

#[test]
fn select_leaves_out_the_bounds_themselves() {
    assert_eq!(selected(roots(4.0, 1.0, 2.0), 1.0, 2.0), None);
    assert_eq!(selected(roots(4.0, 1.0, 2.0), 1.0, 3.0), Some(2.0));
    assert_eq!(selected(roots(4.0, 1.0, 2.0), 0.0, 2.0), Some(1.0));
    assert_eq!(selected(roots(4.0, 0.0, 2.0), 0.0, 2.0), None);
}

#[test]
fn select_takes_nothing_without_a_positive_discriminant() {
    assert_eq!(selected(roots(0.0, 1.0, 1.0), 0.0, f32::MAX), None);
    assert_eq!(selected(roots(-0.0, 1.0, 1.0), 0.0, f32::MAX), None);
    assert_eq!(selected(roots(-3.0, 1.0, 2.0), 0.0, f32::MAX), None);
    assert_eq!(selected(roots(f32::NAN, 1.0, 2.0), 0.0, f32::MAX), None);
}

#[test]
fn select_passes_over_roots_that_are_no_numbers() {
    assert_eq!(selected(roots(1.0, f32::NAN, 2.0), 0.0, f32::MAX), Some(2.0));
    assert_eq!(selected(roots(1.0, f32::NAN, f32::NAN), 0.0, f32::MAX), None);
    assert_eq!(selected(roots(1.0, 1.0, 2.0), f32::NAN, f32::MAX), None);
    assert_eq!(selected(roots(1.0, 1.0, 2.0), 0.0, f32::NAN), None);
}

#[test]
fn sphere_keeps_center_and_radius() {
    let s = Sphere::new(num(0.0), num(-100.5), num(-1.0), num(100.0));
    assert_eq!(parts(s.center()), [0.0, -100.5, -1.0]);
    assert_eq!(val(s.radius()), 100.0);
}

#[test]
fn ray_that_passes_a_sphere_at_a_distance_hits_nothing() {
    let ball = Ball::new(0.0, 0.0, -1.0, 0.5);
    let passing = ray([0.0, 0.0, 0.0], [1.0, 0.0, -1.0]);
    assert!(ball.hit(&passing, num(0.0), num(f32::MAX)).is_none());
    let away = ray([0.0, 2.0, 0.0], [0.0, 0.0, -1.0]);
    assert!(ball.hit(&away, num(0.0), num(f32::MAX)).is_none());
    let sideways = ray([0.0, 0.0, 0.0], [1.0, 0.0, 0.0]);
    assert!(ball.hit(&sideways, num(0.0), num(f32::INFINITY)).is_none());
}

#[test]
fn ray_that_only_touches_a_sphere_hits_nothing() {
    let ball = Ball::new(0.0, 0.0, -1.0, 0.5);
    let touching = ray([0.0, 0.5, 0.0], [0.0, 0.0, -1.0]);
    assert_eq!(val(roots_of(&ball.0, &touching).discriminant), 0.0);
    assert!(ball.hit(&touching, num(0.0), num(f32::MAX)).is_none());
}

#[test]
fn ray_without_a_direction_hits_nothing() {
    let ball = Ball::new(0.0, 0.0, -1.0, 0.5);
    let still = ray([0.0, 0.0, 0.0], [0.0, 0.0, 0.0]);
    assert!(ball.hit(&still, num(0.0), num(f32::MAX)).is_none());
    let inside = ray([0.0, 0.0, -1.0], [0.0, 0.0, 0.0]);
    assert!(ball.hit(&inside, num(0.0), num(f32::MAX)).is_none());
}

#[test]
fn ray_from_outside_hits_the_near_side_of_a_sphere() {
    let ball = Ball::new(0.0, 0.0, -1.0, 0.5);
    let r = ray([0.0, 0.0, 0.0], [0.0, 0.0, -1.0]);
    let h = ball.hit(&r, num(0.0), num(f32::MAX)).unwrap();
    assert_eq!(val(h.t), 0.5);
    assert_eq!(parts(h.p), [0.0, 0.0, -0.5]);
    assert_eq!(parts(h.normal), [0.0, 0.0, 1.0]);
}

#[test]
fn hit_lies_on_the_sphere_and_its_normal_points_outward() {
    let center = [0.3, -0.2, -2.0];
    let radius = 0.75;
    let ball = Ball::new(center[0], center[1], center[2], radius);
    for d in [[0.1, -0.05, -1.0], [0.3, -0.2, -2.0], [0.4, 0.0, -3.0], [0.05, -0.3, -1.0]] {
        let r = ray([0.0, 0.0, 0.0], d);
        let h = ball.hit(&r, num(0.0), num(f32::MAX)).unwrap();
        let t = val(h.t);
        assert!(t > 0.0);
        let p = along([0.0, 0.0, 0.0], d, t);
        assert_eq!(parts(h.p), p);
        let out = minus(p, center);
        assert!((dot(out, out).sqrt() - radius).abs() < 1e-5);
        let n = parts(h.normal);
        assert!((dot(n, n).sqrt() - 1.0).abs() < 1e-5);
        assert!(dot(n, out) > 0.0);
    }
}

#[test]
fn ray_from_inside_hits_the_far_side_of_a_sphere() {
    let ball = Ball::new(0.0, 0.0, 0.0, 2.0);
    let r = ray([0.0, 0.0, 0.0], [0.0, 0.0, -1.0]);
    let h = ball.hit(&r, num(0.0), num(f32::MAX)).unwrap();
    assert_eq!(val(h.t), 2.0);
    assert_eq!(parts(h.p), [0.0, 0.0, -2.0]);
}

#[test]
fn sphere_behind_the_ray_or_beyond_the_upper_bound_is_not_hit() {
    let behind = Ball::new(0.0, 0.0, 1.0, 0.5);
    let r = ray([0.0, 0.0, 0.0], [0.0, 0.0, -1.0]);
    assert!(behind.hit(&r, num(0.0), num(f32::MAX)).is_none());
    let ahead = Ball::new(0.0, 0.0, -10.0, 0.5);
    assert!(ahead.hit(&r, num(0.0), num(9.0)).is_none());
    assert_eq!(val(ahead.hit(&r, num(0.0), num(9.75)).unwrap().t), 9.5);
    assert_eq!(val(ahead.hit(&r, num(9.5), num(11.0)).unwrap().t), 10.5);
}

#[test]
fn direction_need_not_have_length_one() {
    let ball = Ball::new(0.0, 0.0, -1.0, 0.5);
    let r = ray([0.0, 0.0, 0.0], [0.0, 0.0, -2.0]);
    let h = ball.hit(&r, num(0.0), num(f32::MAX)).unwrap();
    assert_eq!(val(h.t), 0.25);
    assert_eq!(parts(h.p), [0.0, 0.0, -0.5]);
}

#[test]
fn list_of_two_overlapping_spheres_returns_the_smaller_hit() {
    let r = ray([0.0, 0.0, 0.0], [0.0, 0.0, -1.0]);
    let one = Ball::new(0.0, 0.0, -2.0, 1.0).hit(&r, num(0.0), num(f32::MAX)).unwrap();
    let two = Ball::new(0.0, 0.0, -1.5, 1.0).hit(&r, num(0.0), num(f32::MAX)).unwrap();
    assert_eq!(val(one.t), 1.0);
    assert_eq!(val(two.t), 0.5);
    let world = HitableList::new(vec![
        Box::new(Ball::new(0.0, 0.0, -2.0, 1.0)),
        Box::new(Ball::new(0.0, 0.0, -1.5, 1.0)),
    ]);
    let h = world.hit(&r, num(0.0), num(f32::MAX)).unwrap();
    assert_eq!(val(h.t), val(one.t).min(val(two.t)));
    assert_eq!(parts(h.p), parts(two.p));
    assert_eq!(parts(h.normal), parts(two.normal));
}

#[test]
fn list_gives_the_same_hit_in_any_order() {
    let r = ray([0.0, 0.0, 0.0], [0.1, 0.05, -1.0]);
    let make = |order: [usize; 3]| {
        let balls = [(0.0, 0.0, -3.0, 1.0), (0.2, 0.1, -2.0, 0.5), (0.0, -100.5, -1.0, 100.0)];
        let mut list: Vec<Box<dyn Hitable>> = Vec::new();
        for k in order {
            let (x, y, z, rad) = balls[k];
            list.push(Box::new(Ball::new(x, y, z, rad)));
        }
        HitableList::new(list)
    };
    let first = make([0, 1, 2]).hit(&r, num(0.0), num(f32::MAX)).unwrap();
    for order in [[0, 2, 1], [1, 0, 2], [1, 2, 0], [2, 0, 1], [2, 1, 0]] {
        let h = make(order).hit(&r, num(0.0), num(f32::MAX)).unwrap();
        assert_eq!(h.t.to_bits(), first.t.to_bits());
        assert_eq!(parts(h.p), parts(first.p));
    }
}

#[test]
fn list_returns_the_nearest_of_its_members() {
    let world = HitableList::new(vec![
        Box::new(Marks::new(&[5.0, 9.0], 1.0)),
        Box::new(Marks::new(&[3.0, 4.0], 2.0)),
        Box::new(Marks::new(&[3.5], 3.0)),
    ]);
    let r = ray([0.0, 0.0, 0.0], [0.0, 0.0, -1.0]);
    let h = world.hit(&r, num(0.0), num(f32::MAX)).unwrap();
    assert_eq!(val(h.t), 3.0);
    assert_eq!(val(h.p.x()), 2.0);
    let h = world.hit(&r, num(3.0), num(f32::MAX)).unwrap();
    assert_eq!(val(h.t), 3.5);
    assert_eq!(val(h.p.x()), 3.0);
    let h = world.hit(&r, num(4.0), num(9.5)).unwrap();
    assert_eq!(val(h.t), 5.0);
    assert_eq!(val(h.p.x()), 1.0);
    assert!(world.hit(&r, num(9.0), num(f32::MAX)).is_none());
    assert!(world.hit(&r, num(0.0), num(3.0)).is_none());
}

#[test]
fn list_asks_each_member_for_a_hit_nearer_than_the_nearest_so_far() {
    let a = Marks::new(&[5.0], 1.0);
    let b = Marks::new(&[7.0], 2.0);
    let c = Marks::new(&[2.0], 3.0);
    let d = Marks::new(&[], 4.0);
    let asked = [a.asked.clone(), b.asked.clone(), c.asked.clone(), d.asked.clone()];
    let world = HitableList::new(vec![Box::new(a), Box::new(b), Box::new(c), Box::new(d)]);
    let r = ray([0.0, 0.0, 0.0], [0.0, 0.0, -1.0]);
    let h = world.hit(&r, num(0.5), num(100.0)).unwrap();
    assert_eq!(val(h.t), 2.0);
    assert_eq!(*asked[0].borrow(), vec![(0.5, 100.0)]);
    assert_eq!(*asked[1].borrow(), vec![(0.5, 5.0)]);
    assert_eq!(*asked[2].borrow(), vec![(0.5, 5.0)]);
    assert_eq!(*asked[3].borrow(), vec![(0.5, 2.0)]);
}

#[test]
fn of_two_members_crossed_at_the_same_parameter_the_first_gives_the_record() {
    let world = HitableList::new(vec![
        Box::new(Marks::new(&[4.0], 1.0)),
        Box::new(Marks::new(&[4.0], 2.0)),
    ]);
    let r = ray([0.0, 0.0, 0.0], [0.0, 0.0, -1.0]);
    let h = world.hit(&r, num(0.0), num(f32::MAX)).unwrap();
    assert_eq!(val(h.t), 4.0);
    assert_eq!(val(h.p.x()), 1.0);
}

#[test]
fn empty_list_is_never_hit() {
    let world = HitableList::new(Vec::new());
    let r = ray([0.0, 0.0, 0.0], [0.0, 0.0, -1.0]);
    assert!(world.hit(&r, num(0.0), num(f32::MAX)).is_none());
    assert!(first_hit(&r, &world).is_none());
}

#[test]
fn list_inside_a_list_is_an_object_like_any_other() {
    let inner = HitableList::new(vec![
        Box::new(Marks::new(&[6.0], 1.0)),
        Box::new(Marks::new(&[2.5], 2.0)),
    ]);
    let world = HitableList::new(vec![Box::new(Marks::new(&[3.0], 3.0)), Box::new(inner)]);
    let r = ray([0.0, 0.0, 0.0], [0.0, 0.0, -1.0]);
    let h = world.hit(&r, num(0.0), num(f32::MAX)).unwrap();
    assert_eq!(val(h.t), 2.5);
    assert_eq!(val(h.p.x()), 2.0);
}

#[test]
fn first_hit_looks_from_above_zero_to_below_infinity() {
    let r = ray([0.0, 0.0, 0.0], [0.0, 0.0, -1.0]);
    let world = HitableList::new(vec![Box::new(Marks::new(&[-1.0, 0.0, f32::MAX], 1.0))]);
    assert_eq!(val(first_hit(&r, &world).unwrap().t), f32::MAX);
    let world = HitableList::new(vec![Box::new(Marks::new(&[-1.0, 0.0, f32::INFINITY], 1.0))]);
    assert!(first_hit(&r, &world).is_none());
    let world = HitableList::new(vec![Box::new(Marks::new(&[f32::MIN_POSITIVE, 3.0], 1.0))]);
    assert_eq!(val(first_hit(&r, &world).unwrap().t), f32::MIN_POSITIVE);
    let ball = Ball::new(0.0, 0.0, -1.0, 0.5);
    assert_eq!(val(first_hit(&r, &ball).unwrap().t), 0.5);
}
