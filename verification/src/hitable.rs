//! Objects that a ray can hit: the interface, the sphere and the list.

use vstd::prelude::*;
use crate::ray::Ray;
use crate::scalar::Scalar;
use crate::vec::Vec3;

verus! {

/// Where and how a ray struck an object.
#[derive(Clone, Copy, Debug)]
pub struct HitRecord {
    /// The ray parameter at the hit.
    pub t: Scalar,
    /// The point of the hit.
    pub p: Vec3,
    /// The outward normal of the surface at that point, of length one.
    pub normal: Vec3,
}

/// The ray parameter of an answer, if it is a hit.
pub open spec fn parameter(res: Option<HitRecord>) -> Option<Scalar> {
    match res {
        Some(h) => Some(h.t),
        None => None,
    }
}

/// Whether `t` is one of the crossings `c` and lies strictly between `tmin`
/// and `tmax`.
pub open spec fn in_reach(c: Set<Scalar>, tmin: Scalar, tmax: Scalar, t: Scalar) -> bool {
    c.contains(t) && t.spec_between(tmin, tmax)
}

/// Whether `answer` is a right answer for an object that the ray crosses
/// at the parameters `c`: nothing when no crossing lies strictly between
/// `tmin` and `tmax`, else a crossing there that no other one there comes
/// before.
pub open spec fn is_nearest(
    c: Set<Scalar>,
    tmin: Scalar,
    tmax: Scalar,
    answer: Option<Scalar>,
) -> bool {
    match answer {
        None => forall|t: Scalar| !in_reach(c, tmin, tmax, t),
        Some(s) => in_reach(c, tmin, tmax, s) && forall|t: Scalar|
            in_reach(c, tmin, tmax, t) ==> s.spec_le(t),
    }
}

/// An object that can be asked where a ray hits it.
///
/// `crossings` and `record_at` say what the object is, and `hit` must answer
/// by them. Nothing is known of them but what an implementation states: the
/// bodies given here only allow an implementation that Verus does not read
/// to leave them out. Such an implementation is trusted to answer `hit` as
/// the crossings of its object demand.
pub trait Hitable {
    /// The parameters at which the ray meets the surface of the object.
    open spec fn crossings(&self, r: Ray) -> Set<Scalar> {
        arbitrary()
    }

    /// The record that describes the crossing at parameter `t`.
    open spec fn record_at(&self, r: Ray, t: Scalar) -> HitRecord {
        arbitrary()
    }

    /// The nearest crossing of the ray with the object strictly between
    /// `tmin` and `tmax`, if there is one.
    fn hit(&self, r: &Ray, tmin: Scalar, tmax: Scalar) -> (res: Option<HitRecord>)
        ensures
            is_nearest(self.crossings(*r), tmin, tmax, parameter(res)),
            res matches Some(h) ==> h == self.record_at(*r, h.t),
    ;
}

/// The solution of a sphere's equation `a t^2 + b t + c = 0` for one ray.
#[derive(Clone, Copy, Debug)]
pub struct Roots {
    /// `b^2 - 4ac`.
    pub discriminant: Scalar,
    /// The root with the minus sign, `(-b - sqrt(discriminant)) / 2a`.
    pub near: Scalar,
    /// The root with the plus sign, `(-b + sqrt(discriminant)) / 2a`.
    pub far: Scalar,
}

impl Roots {
    /// The parameters at which the ray meets the sphere. A ray that only
    /// touches the sphere, with a discriminant of zero, does not meet it.
    pub open spec fn crossings(self) -> Set<Scalar> {
        if self.discriminant.spec_is_positive() {
            set![self.near, self.far]
        } else {
            Set::empty()
        }
    }

    /// The root that counts as the hit strictly between `tmin` and `tmax`:
    /// none unless the discriminant is positive; then the near root if it
    /// lies there, else the far root if that one does.
    pub open spec fn spec_select(self, tmin: Scalar, tmax: Scalar) -> Option<Scalar> {
        if !self.discriminant.spec_is_positive() {
            None
        } else if self.near.spec_between(tmin, tmax) {
            Some(self.near)
        } else if self.far.spec_between(tmin, tmax) {
            Some(self.far)
        } else {
            None
        }
    }

    /// The root that counts as the hit strictly between `tmin` and `tmax`.
    pub fn select(&self, tmin: Scalar, tmax: Scalar) -> (res: Option<Scalar>)
        ensures
            res == self.spec_select(tmin, tmax),
            res is Some <==> self.discriminant.spec_is_positive() && (self.near.spec_between(
                tmin,
                tmax,
            ) || self.far.spec_between(tmin, tmax)),
            res matches Some(t) ==> t.spec_between(tmin, tmax) && self.crossings().contains(t),
    {
        if !self.discriminant.is_positive() {
            None
        } else if self.near.between(&tmin, &tmax) {
            Some(self.near)
        } else if self.far.between(&tmin, &tmax) {
            Some(self.far)
        } else {
            None
        }
    }
}

/// A sphere.
#[derive(Clone, Copy, Debug)]
pub struct Sphere {
    center: Vec3,
    radius: Scalar,
}

impl Sphere {
    /// The center of the sphere.
    pub closed spec fn spec_center(self) -> Vec3 {
        self.center
    }

    /// The radius of the sphere.
    pub closed spec fn spec_radius(self) -> Scalar {
        self.radius
    }

    /// Every sphere has a radius above zero.
    #[verifier::type_invariant]
    spec fn positive_radius(self) -> bool {
        self.radius.spec_is_positive()
    }

    /// The sphere round `(cx, cy, cz)` with radius `r`, which is above zero.
    pub fn new(cx: Scalar, cy: Scalar, cz: Scalar, r: Scalar) -> (s: Sphere)
        requires
            r.spec_is_positive(),
        ensures
            s.spec_center()@ == seq![cx, cy, cz],
            s.spec_radius() == r,
    {
        Sphere { center: Vec3::new(cx, cy, cz), radius: r }
    }

    /// The center of the sphere.
    pub fn center(&self) -> (c: Vec3)
        ensures
            c == self.spec_center(),
    {
        self.center
    }

    /// The radius of the sphere, which is above zero.
    pub fn radius(&self) -> (r: Scalar)
        ensures
            r == self.spec_radius(),
            r.spec_is_positive(),
    {
        proof {
            use_type_invariant(self);
        }
        self.radius
    }
}

/// Many objects taken as one.
pub struct HitableList {
    hitable_list: Vec<Box<dyn Hitable>>,
}

impl HitableList {
    /// The objects of the list, in order.
    pub closed spec fn members(&self) -> Seq<Box<dyn Hitable>> {
        self.hitable_list@
    }

    /// The list of the given objects.
    pub fn new(hitable_list: Vec<Box<dyn Hitable>>) -> (l: HitableList)
        ensures
            l.members() == hitable_list@,
    {
        HitableList { hitable_list }
    }
}

/// The parameters at which the ray meets any of the objects `ms`.
pub open spec fn crossings_of_any(ms: Seq<Box<dyn Hitable>>, r: Ray) -> Set<Scalar> {
    Set::new(
        |t: Scalar| exists|k: int| 0 <= k < ms.len() && #[trigger] ms[k].crossings(r).contains(t),
    )
}

/// The record of the crossing at `t` as the first of the objects `ms` that
/// the ray crosses there describes it.
pub open spec fn record_among(ms: Seq<Box<dyn Hitable>>, r: Ray, t: Scalar) -> HitRecord
    decreases ms.len(),
{
    if ms.len() == 0 {
        arbitrary()
    } else if crossings_of_any(ms.drop_last(), r).contains(t) {
        record_among(ms.drop_last(), r, t)
    } else {
        ms.last().record_at(r, t)
    }
}

/// The crossings of the first `i + 1` objects are those of the first `i`
/// together with those of the object at `i`.
proof fn lemma_crossings_grow(ms: Seq<Box<dyn Hitable>>, i: int, r: Ray)
    requires
        0 <= i < ms.len(),
    ensures
        crossings_of_any(ms.take(i + 1), r) == crossings_of_any(ms.take(i), r).union(
            ms[i].crossings(r),
        ),
        ms.take(i + 1).drop_last() == ms.take(i),
        ms.take(i + 1).last() == ms[i],
{
    let more = ms.take(i + 1);
    let less = ms.take(i);
    assert(more.drop_last() =~= less);
    assert forall|t: Scalar|
        crossings_of_any(more, r).contains(t) <==> (crossings_of_any(less, r).contains(t)
            || ms[i].crossings(r).contains(t)) by {
        if crossings_of_any(more, r).contains(t) {
            let k = choose|k: int| 0 <= k < more.len() && #[trigger] more[k].crossings(r).contains(t);
            if k < i {
                assert(less[k].crossings(r).contains(t));
            }
        }
        if crossings_of_any(less, r).contains(t) {
            let k = choose|k: int| 0 <= k < less.len() && #[trigger] less[k].crossings(r).contains(t);
            assert(more[k].crossings(r).contains(t));
        }
        if ms[i].crossings(r).contains(t) {
            assert(more[i].crossings(r).contains(t));
        }
    }
    assert(crossings_of_any(more, r) =~= crossings_of_any(less, r).union(ms[i].crossings(r)));
}

impl Hitable for HitableList {
    /// The ray meets the list wherever it meets one of its objects.
    open spec fn crossings(&self, r: Ray) -> Set<Scalar> {
        crossings_of_any(self.members(), r)
    }

    /// Where several objects are crossed at `t`, the first of them in the
    /// list gives the record.
    open spec fn record_at(&self, r: Ray, t: Scalar) -> HitRecord {
        record_among(self.members(), r, t)
    }

    /// Asks every object in turn, each for a hit nearer than the nearest
    /// found so far, and returns the last hit found: the nearest of all.
    fn hit(&self, r: &Ray, tmin: Scalar, tmax: Scalar) -> (res: Option<HitRecord>) {
        let mut hit_record: Option<HitRecord> = None;
        let mut closest_so_far = tmax;
        let mut i: usize = 0;
        while i < self.hitable_list.len()
            invariant
                i <= self.hitable_list.len(),
                is_nearest(
                    crossings_of_any(self.members().take(i as int), *r),
                    tmin,
                    tmax,
                    parameter(hit_record),
                ),
                match hit_record {
                    None => closest_so_far == tmax,
                    Some(h) => closest_so_far == h.t && h == record_among(
                        self.members().take(i as int),
                        *r,
                        h.t,
                    ),
                },
            decreases self.hitable_list.len() - i,
        {
            let ghost seen = crossings_of_any(self.members().take(i as int), *r);
            let ghost here = self.members()[i as int].crossings(*r);
            let ghost before = hit_record;
            let ghost bound = closest_so_far;
            proof {
                lemma_crossings_grow(self.members(), i as int, *r);
            }
            if let Some(hr) = self.hitable_list[i].hit(r, tmin, closest_so_far) {
                closest_so_far = hr.t;
                hit_record = Some(hr);
                proof {
                    assert(in_reach(here, tmin, bound, hr.t));
                    assert(hr.t.spec_lt(tmax)) by {
                        if let Some(h) = before {
                            assert(in_reach(seen, tmin, tmax, h.t));
                        }
                    }
                    assert(!seen.contains(hr.t)) by {
                        if seen.contains(hr.t) {
                            assert(in_reach(seen, tmin, tmax, hr.t));
                            assert(before is Some && before->0.t.spec_le(hr.t));
                        }
                    }
                    assert forall|t: Scalar| in_reach(seen.union(here), tmin, tmax, t) implies hr.t.spec_le(
                        t,
                    ) by {
                        if seen.contains(t) {
                            assert(in_reach(seen, tmin, tmax, t));
                            assert(before is Some && before->0.t.spec_le(t));
                        } else if t.spec_lt(bound) {
                            assert(in_reach(here, tmin, bound, t));
                        }
                    }
                }
            } else {
                proof {
                    assert forall|t: Scalar| in_reach(seen.union(here), tmin, tmax, t) implies (before matches Some(
                        h,
                    ) && h.t.spec_le(t)) by {
                        if seen.contains(t) {
                            assert(in_reach(seen, tmin, tmax, t));
                        } else {
                            assert(!in_reach(here, tmin, bound, t));
                        }
                    }
                }
            }
            i += 1;
        }
        assert(self.members().take(i as int) =~= self.members());
        hit_record
    }
}

/// What a ray sees of the world: the nearest hit in front of its origin, at
/// a parameter above zero, however large.
pub fn first_hit(r: &Ray, world: &dyn Hitable) -> (res: Option<HitRecord>)
    ensures
        is_nearest(
            world.crossings(*r),
            Scalar::spec_zero(),
            Scalar::spec_infinity(),
            parameter(res),
        ),
        res matches Some(h) ==> h == world.record_at(*r, h.t) && h.t.spec_is_positive(),
{
    world.hit(r, Scalar::zero(), Scalar::infinity())
}

/// The root that a sphere's equation selects is a right answer for the
/// sphere: provided the far root does not come before the near one, it is
/// the nearest of the sphere's crossings strictly between `tmin` and `tmax`,
/// and nothing is selected exactly when no crossing lies there.
pub proof fn lemma_selected_root_is_nearest(roots: Roots, tmin: Scalar, tmax: Scalar)
    requires
        !roots.far.spec_lt(roots.near),
    ensures
        is_nearest(roots.crossings(), tmin, tmax, roots.spec_select(tmin, tmax)),
{
    let c = roots.crossings();
    match roots.spec_select(tmin, tmax) {
        None => {
            assert forall|t: Scalar| !in_reach(c, tmin, tmax, t) by {
                if c.contains(t) {
                    assert(t == roots.near || t == roots.far);
                }
            }
        },
        Some(s) => {
            assert(in_reach(c, tmin, tmax, s));
            assert forall|t: Scalar| in_reach(c, tmin, tmax, t) implies s.spec_le(t) by {
                assert(t == roots.near || t == roots.far);
            }
        },
    }
}

/// A ray that does not cross a sphere, or only touches it, hits nothing,
/// whatever the bounds.
pub proof fn lemma_no_crossing_no_hit(roots: Roots, tmin: Scalar, tmax: Scalar)
    requires
        !roots.discriminant.spec_is_positive(),
    ensures
        roots.spec_select(tmin, tmax) is None,
        roots.crossings() == Set::<Scalar>::empty(),
{
}

/// The answer of a list is the least of the answers of its objects: when
/// each object is asked alone with the same bounds and `alone[k]` is a right
/// answer of the object at `k`, then a right answer of the whole list is
/// nothing exactly when every object answers nothing, and else comes
/// before or with every object's answer and with at least one of them.
pub proof fn lemma_list_answers_least_of_members(
    list: HitableList,
    r: Ray,
    tmin: Scalar,
    tmax: Scalar,
    alone: Seq<Option<Scalar>>,
    whole: Option<Scalar>,
)
    requires
        alone.len() == list.members().len(),
        forall|k: int|
            0 <= k < alone.len() ==> is_nearest(
                #[trigger] list.members()[k].crossings(r),
                tmin,
                tmax,
                alone[k],
            ),
        is_nearest(list.crossings(r), tmin, tmax, whole),
    ensures
        whole is None <==> forall|k: int| 0 <= k < alone.len() ==> #[trigger] alone[k] is None,
        whole matches Some(s) ==> {
            &&& forall|k: int|
                0 <= k < alone.len() ==> (#[trigger] alone[k] matches Some(t) ==> s.spec_le(t))
            &&& exists|k: int|
                0 <= k < alone.len() && (#[trigger] alone[k] matches Some(t) && t.scaled() == s.scaled())
        },
{
    let ms = list.members();
    let c = list.crossings(r);
    assert forall|k: int| 0 <= k < alone.len() && #[trigger] alone[k] is Some implies whole is Some
        && whole->0.spec_le(alone[k]->0) by {
        let t = alone[k]->0;
        assert(in_reach(ms[k].crossings(r), tmin, tmax, t));
        assert(in_reach(c, tmin, tmax, t));
    }
    if let Some(s) = whole {
        assert(in_reach(c, tmin, tmax, s));
        let k = choose|k: int| 0 <= k < ms.len() && #[trigger] ms[k].crossings(r).contains(s);
        assert(in_reach(ms[k].crossings(r), tmin, tmax, s));
        assert(alone[k] is Some);
        let t = alone[k]->0;
        assert(t.spec_le(s));
        assert(s.spec_le(t));
    }
}

/// The order of the objects in a list does not change its answer. Let two
/// lists hold the same objects: `forth` says where in the second list each
/// object of the first stands, and `back` the reverse. Then the ray crosses
/// both at the same parameters, and right answers of the two are both
/// nothing or stand at the same place in the order of numbers.
pub proof fn lemma_order_of_members_is_irrelevant(
    first: HitableList,
    second: HitableList,
    forth: spec_fn(int) -> int,
    back: spec_fn(int) -> int,
    r: Ray,
    tmin: Scalar,
    tmax: Scalar,
    a: Option<Scalar>,
    b: Option<Scalar>,
)
    requires
        forall|k: int|
            0 <= k < first.members().len() ==> 0 <= #[trigger] forth(k) < second.members().len()
                && second.members()[forth(k)] == first.members()[k],
        forall|k: int|
            0 <= k < second.members().len() ==> 0 <= #[trigger] back(k) < first.members().len()
                && first.members()[back(k)] == second.members()[k],
        is_nearest(first.crossings(r), tmin, tmax, a),
        is_nearest(second.crossings(r), tmin, tmax, b),
    ensures
        first.crossings(r) == second.crossings(r),
        a is None <==> b is None,
        a is Some && b is Some ==> a->0.scaled() == b->0.scaled(),
{
    let m1 = first.members();
    let m2 = second.members();
    assert forall|t: Scalar| first.crossings(r).contains(t) <==> second.crossings(r).contains(
        t,
    ) by {
        if first.crossings(r).contains(t) {
            let k = choose|k: int| 0 <= k < m1.len() && #[trigger] m1[k].crossings(r).contains(t);
            assert(m2[forth(k)].crossings(r).contains(t));
        }
        if second.crossings(r).contains(t) {
            let k = choose|k: int| 0 <= k < m2.len() && #[trigger] m2[k].crossings(r).contains(t);
            assert(m1[back(k)].crossings(r).contains(t));
        }
    }
    assert(first.crossings(r) =~= second.crossings(r));
    let c = first.crossings(r);
    if let Some(s) = a {
        assert(in_reach(c, tmin, tmax, s));
        assert(b is Some && b->0.spec_le(s));
    }
    if let Some(s) = b {
        assert(in_reach(c, tmin, tmax, s));
        assert(a is Some && a->0.spec_le(s));
    }
}

} // verus!
