//! Axis-aligned boxes: the slab test and the union of two boxes.
use vstd::prelude::*;
use crate::fixed::ONE;
use crate::ray::Ray;
use crate::vec3::Vec3;

verus! {

/// An axis-aligned box given by its two extreme corners. A box is meant to
/// have `minimum <= maximum` on every axis; equality gives a flat box.
#[derive(Clone, Copy, Debug, PartialEq, Eq, Structural)]
pub struct AABB {
    pub minimum: Vec3,
    pub maximum: Vec3,
}

/// The exact ray parameter `num / den`, with `den > 0`. One unit of it is one
/// whole direction vector.
pub ghost struct Bound {
    pub num: int,
    pub den: int,
}

/// `a < b` as exact fractions.
pub open spec fn precedes(a: Bound, b: Bound) -> bool {
    a.num * b.den < b.num * a.den
}

/// The smaller of two components.
pub open spec fn lesser(a: i32, b: i32) -> i32 {
    if a <= b {
        a
    } else {
        b
    }
}

/// The larger of two components.
pub open spec fn greater(a: i32, b: i32) -> i32 {
    if a >= b {
        a
    } else {
        b
    }
}

impl AABB {
    pub fn new(minimum: Vec3, maximum: Vec3) -> (b: AABB)
        ensures
            b == (AABB { minimum, maximum }),
    {
        AABB { minimum, maximum }
    }

    /// No axis has its corners the wrong way round.
    pub open spec fn wf(self) -> bool {
        self.minimum.x <= self.maximum.x && self.minimum.y <= self.maximum.y && self.minimum.z
            <= self.maximum.z
    }

    /// A ray that runs parallel to the slab of `axis` lies strictly between
    /// its two faces. Such a ray is inside the slab at every parameter or at
    /// none.
    pub open spec fn axis_open(self, ray: Ray, axis: int) -> bool {
        ray.direction.get(axis) != 0 || self.minimum.get(axis) < ray.origin.get(axis)
            < self.maximum.get(axis)
    }

    /// The parameter at which the ray enters the slab of `axis`. A parallel
    /// ray adds no bound of its own and repeats `t_min`.
    pub open spec fn entry(self, ray: Ray, axis: int, t_min: int) -> Bound {
        let d = ray.direction.get(axis);
        if d > 0 {
            Bound { num: self.minimum.get(axis) - ray.origin.get(axis), den: d }
        } else if d < 0 {
            Bound { num: ray.origin.get(axis) - self.maximum.get(axis), den: -d }
        } else {
            Bound { num: t_min, den: ONE as int }
        }
    }

    /// The parameter at which the ray leaves the slab of `axis`. A parallel
    /// ray adds no bound of its own and repeats `t_max`.
    pub open spec fn exit(self, ray: Ray, axis: int, t_max: int) -> Bound {
        let d = ray.direction.get(axis);
        if d > 0 {
            Bound { num: self.maximum.get(axis) - ray.origin.get(axis), den: d }
        } else if d < 0 {
            Bound { num: ray.origin.get(axis) - self.minimum.get(axis), den: -d }
        } else {
            Bound { num: t_max, den: ONE as int }
        }
    }

    /// The lower bounds on the parameter: the three entries, then `t_min`.
    pub open spec fn lower(self, ray: Ray, i: int, t_min: int) -> Bound {
        if i < 3 {
            self.entry(ray, i, t_min)
        } else {
            Bound { num: t_min, den: ONE as int }
        }
    }

    /// The upper bounds on the parameter: the three exits, then `t_max`.
    pub open spec fn upper(self, ray: Ray, j: int, t_max: int) -> Bound {
        if j < 3 {
            self.exit(ray, j, t_max)
        } else {
            Bound { num: t_max, den: ONE as int }
        }
    }

    /// The slab test. The ray meets the box inside `(t_min, t_max)` when no
    /// parallel slab excludes it and the largest lower bound lies strictly
    /// below the smallest upper bound, that is, when every lower bound lies
    /// strictly below every upper bound.
    pub open spec fn hit_spec(self, ray: Ray, t_min: int, t_max: int) -> bool {
        &&& forall|axis: int| 0 <= axis < 3 ==> #[trigger] self.axis_open(ray, axis)
        &&& forall|i: int, j: int|
            0 <= i < 4 && 0 <= j < 4 ==> precedes(
                #[trigger] self.lower(ray, i, t_min),
                #[trigger] self.upper(ray, j, t_max),
            )
    }

    fn lower_bound(&self, ray: &Ray, i: usize, t_min: i64) -> (b: (i64, i64))
        requires
            i < 4,
        ensures
            self.lower(*ray, i as int, t_min as int) == (Bound { num: b.0 as int, den: b.1 as int }),
            0 < b.1 <= 0x8000_0000,
    {
        if i < 3 {
            let d: i64 = ray.direction.component(i) as i64;
            let o: i64 = ray.origin.component(i) as i64;
            if d > 0 {
                (self.minimum.component(i) as i64 - o, d)
            } else if d < 0 {
                (o - self.maximum.component(i) as i64, -d)
            } else {
                (t_min, ONE as i64)
            }
        } else {
            (t_min, ONE as i64)
        }
    }

    fn upper_bound(&self, ray: &Ray, j: usize, t_max: i64) -> (b: (i64, i64))
        requires
            j < 4,
        ensures
            self.upper(*ray, j as int, t_max as int) == (Bound { num: b.0 as int, den: b.1 as int }),
            0 < b.1 <= 0x8000_0000,
    {
        if j < 3 {
            let d: i64 = ray.direction.component(j) as i64;
            let o: i64 = ray.origin.component(j) as i64;
            if d > 0 {
                (self.maximum.component(j) as i64 - o, d)
            } else if d < 0 {
                (o - self.minimum.component(j) as i64, -d)
            } else {
                (t_max, ONE as i64)
            }
        } else {
            (t_max, ONE as i64)
        }
    }

    fn axis_is_open(&self, ray: &Ray, axis: usize) -> (b: bool)
        requires
            axis < 3,
        ensures
            b == self.axis_open(*ray, axis as int),
    {
        let o = ray.origin.component(axis);
        ray.direction.component(axis) != 0 || (self.minimum.component(axis) < o
            && o < self.maximum.component(axis))
    }

    /// Whether the ray passes through the inside of the box at some parameter
    /// strictly between `position_min` and `position_max`.
    pub fn hit(&self, ray: &Ray, position_min: i64, position_max: i64) -> (b: bool)
        ensures
            b == self.hit_spec(*ray, position_min as int, position_max as int),
    {
        let mut axis: usize = 0;
        while axis < 3
            invariant
                axis <= 3,
                forall|a: int| 0 <= a < axis ==> #[trigger] self.axis_open(*ray, a),
            decreases 3 - axis,
        {
            if !self.axis_is_open(ray, axis) {
                return false;
            }
            axis += 1;
        }
        let mut i: usize = 0;
        while i < 4
            invariant
                i <= 4,
                forall|a: int| 0 <= a < 3 ==> #[trigger] self.axis_open(*ray, a),
                forall|p: int, q: int|
                    0 <= p < i && 0 <= q < 4 ==> precedes(
                        #[trigger] self.lower(*ray, p, position_min as int),
                        #[trigger] self.upper(*ray, q, position_max as int),
                    ),
            decreases 4 - i,
        {
            let lo = self.lower_bound(ray, i, position_min);
            let mut j: usize = 0;
            while j < 4
                invariant
                    i < 4,
                    j <= 4,
                    self.lower(*ray, i as int, position_min as int) == (Bound {
                        num: lo.0 as int,
                        den: lo.1 as int,
                    }),
                    0 < lo.1 <= 0x8000_0000,
                    forall|q: int|
                        0 <= q < j ==> precedes(
                            self.lower(*ray, i as int, position_min as int),
                            #[trigger] self.upper(*ray, q, position_max as int),
                        ),
                decreases 4 - j,
            {
                let hi = self.upper_bound(ray, j, position_max);
                assert(-0x4000_0000_0000_0000_0000_0000 <= lo.0 as int * hi.1 as int
                    <= 0x4000_0000_0000_0000_0000_0000 && -0x4000_0000_0000_0000_0000_0000
                    <= hi.0 as int * lo.1 as int <= 0x4000_0000_0000_0000_0000_0000)
                    by (nonlinear_arith)
                    requires
                        0 < lo.1 <= 0x8000_0000,
                        0 < hi.1 <= 0x8000_0000,
                        -0x8000_0000_0000_0000 <= lo.0 as int <= 0x7fff_ffff_ffff_ffff,
                        -0x8000_0000_0000_0000 <= hi.0 as int <= 0x7fff_ffff_ffff_ffff,
                ;
                if !((lo.0 as i128) * (hi.1 as i128) < (hi.0 as i128) * (lo.1 as i128)) {
                    return false;
                }
                j += 1;
            }
            i += 1;
        }
        true
    }

    /// How far the box stretches along `axis`.
    pub open spec fn extent(self, axis: int) -> int {
        self.maximum.get(axis) - self.minimum.get(axis)
    }

    /// The axis along which the box stretches furthest; of two equal
    /// extents the earlier axis wins.
    pub open spec fn longest_axis_spec(self) -> int {
        if self.extent(0) >= self.extent(1) && self.extent(0) >= self.extent(2) {
            0
        } else if self.extent(1) >= self.extent(2) {
            1
        } else {
            2
        }
    }

    /// The axis along which the box stretches furthest.
    pub fn longest_axis(&self) -> (axis: usize)
        ensures
            axis == self.longest_axis_spec(),
            axis < 3,
    {
        let ex: i64 = self.maximum.x as i64 - self.minimum.x as i64;
        let ey: i64 = self.maximum.y as i64 - self.minimum.y as i64;
        let ez: i64 = self.maximum.z as i64 - self.minimum.z as i64;
        if ex >= ey && ex >= ez {
            0
        } else if ey >= ez {
            1
        } else {
            2
        }
    }

    /// The smallest box that holds both.
    pub open spec fn union(self, other: AABB) -> AABB {
        AABB {
            minimum: Vec3 {
                x: lesser(self.minimum.x, other.minimum.x),
                y: lesser(self.minimum.y, other.minimum.y),
                z: lesser(self.minimum.z, other.minimum.z),
            },
            maximum: Vec3 {
                x: greater(self.maximum.x, other.maximum.x),
                y: greater(self.maximum.y, other.maximum.y),
                z: greater(self.maximum.z, other.maximum.z),
            },
        }
    }

    /// `inner` does not reach outside `self` on any axis.
    pub open spec fn encloses(self, inner: AABB) -> bool {
        &&& self.minimum.x <= inner.minimum.x && inner.maximum.x <= self.maximum.x
        &&& self.minimum.y <= inner.minimum.y && inner.maximum.y <= self.maximum.y
        &&& self.minimum.z <= inner.minimum.z && inner.maximum.z <= self.maximum.z
    }
}

fn min_component(a: i32, b: i32) -> (r: i32)
    ensures
        r == lesser(a, b),
{
    if a <= b {
        a
    } else {
        b
    }
}

fn max_component(a: i32, b: i32) -> (r: i32)
    ensures
        r == greater(a, b),
{
    if a >= b {
        a
    } else {
        b
    }
}

/// The smallest box that holds both `box0` and `box1`: the component-wise
/// least of the two minimum corners and greatest of the two maximum corners.
pub fn surrounding_box(box0: &AABB, box1: &AABB) -> (b: AABB)
    ensures
        b == box0.union(*box1),
{
    let small = Vec3::new(
        min_component(box0.minimum.x, box1.minimum.x),
        min_component(box0.minimum.y, box1.minimum.y),
        min_component(box0.minimum.z, box1.minimum.z),
    );
    let big = Vec3::new(
        max_component(box0.maximum.x, box1.maximum.x),
        max_component(box0.maximum.y, box1.maximum.y),
        max_component(box0.maximum.z, box1.maximum.z),
    );
    AABB::new(small, big)
}

/// The union of all the boxes of a non-empty sequence, folded from the left.
pub open spec fn union_all(boxes: Seq<AABB>) -> AABB
    decreases boxes.len(),
{
    if boxes.len() <= 1 {
        boxes[0]
    } else {
        union_all(boxes.drop_last()).union(boxes.last())
    }
}

/// The union of two boxes does not depend on their order.
pub proof fn lemma_union_commutative(a: AABB, b: AABB)
    ensures
        a.union(b) == b.union(a),
{
}

/// The union of three boxes does not depend on how they are grouped.
pub proof fn lemma_union_associative(a: AABB, b: AABB, c: AABB)
    ensures
        a.union(b).union(c) == a.union(b.union(c)),
{
}

/// The union of two boxes encloses both, and is a proper box if both are.
pub proof fn lemma_union_encloses(a: AABB, b: AABB)
    ensures
        a.union(b).encloses(a),
        a.union(b).encloses(b),
        a.wf() && b.wf() ==> a.union(b).wf(),
{
}

/// Enclosure is transitive.
pub proof fn lemma_encloses_transitive(a: AABB, b: AABB, c: AABB)
    requires
        a.encloses(b),
        b.encloses(c),
    ensures
        a.encloses(c),
{
}

/// On every axis, the folded union reaches exactly as far as the member that
/// reaches furthest.
proof fn lemma_union_all_extremes(boxes: Seq<AABB>, axis: int)
    requires
        boxes.len() > 0,
        0 <= axis < 3,
    ensures
        forall|i: int|
            0 <= i < boxes.len() ==> union_all(boxes).minimum.get(axis)
                <= (#[trigger] boxes[i]).minimum.get(axis) && boxes[i].maximum.get(axis)
                <= union_all(boxes).maximum.get(axis),
        exists|i: int|
            0 <= i < boxes.len() && union_all(boxes).minimum.get(axis)
                == (#[trigger] boxes[i]).minimum.get(axis),
        exists|i: int|
            0 <= i < boxes.len() && union_all(boxes).maximum.get(axis)
                == (#[trigger] boxes[i]).maximum.get(axis),
    decreases boxes.len(),
{
    if boxes.len() <= 1 {
        assert(union_all(boxes) == boxes[0]);
    } else {
        let front = boxes.drop_last();
        let last = boxes.last();
        lemma_union_all_extremes(front, axis);
        let u = union_all(front).union(last);
        assert(union_all(boxes) == u);
        assert forall|i: int| 0 <= i < boxes.len() implies u.minimum.get(axis) <= (
        #[trigger] boxes[i]).minimum.get(axis) && boxes[i].maximum.get(axis) <= u.maximum.get(
            axis,
        ) by {
            if i < front.len() {
                assert(front[i] == boxes[i]);
            }
        }
        let i_min = choose|i: int|
            0 <= i < front.len() && union_all(front).minimum.get(axis)
                == (#[trigger] front[i]).minimum.get(axis);
        let i_max = choose|i: int|
            0 <= i < front.len() && union_all(front).maximum.get(axis)
                == (#[trigger] front[i]).maximum.get(axis);
        assert(front[i_min] == boxes[i_min]);
        assert(front[i_max] == boxes[i_max]);
        let last_i = boxes.len() - 1;
        assert(boxes[last_i] == last);
        if u.minimum.get(axis) == last.minimum.get(axis) {
            assert(u.minimum.get(axis) == boxes[last_i].minimum.get(axis));
        } else {
            assert(u.minimum.get(axis) == boxes[i_min].minimum.get(axis));
        }
        if u.maximum.get(axis) == last.maximum.get(axis) {
            assert(u.maximum.get(axis) == boxes[last_i].maximum.get(axis));
        } else {
            assert(u.maximum.get(axis) == boxes[i_max].maximum.get(axis));
        }
    }
}

/// The folded union encloses every member.
pub proof fn lemma_union_all_encloses(boxes: Seq<AABB>, i: int)
    requires
        0 <= i < boxes.len(),
    ensures
        union_all(boxes).encloses(boxes[i]),
{
    lemma_union_all_extremes(boxes, 0);
    lemma_union_all_extremes(boxes, 1);
    lemma_union_all_extremes(boxes, 2);
}

/// Every member of `first` occurs in `second`.
pub open spec fn members_within(first: Seq<AABB>, second: Seq<AABB>) -> bool {
    forall|i: int| 0 <= i < first.len() ==> second.contains(#[trigger] first[i])
}

/// Two sequences with the same members have folded unions that reach equally
/// far along `axis`.
proof fn lemma_union_all_same_reach(first: Seq<AABB>, second: Seq<AABB>, axis: int)
    requires
        first.len() > 0,
        second.len() > 0,
        members_within(first, second),
        members_within(second, first),
        0 <= axis < 3,
    ensures
        union_all(first).minimum.get(axis) == union_all(second).minimum.get(axis),
        union_all(first).maximum.get(axis) == union_all(second).maximum.get(axis),
{
    let a = union_all(first);
    let b = union_all(second);
    lemma_union_all_extremes(first, axis);
    lemma_union_all_extremes(second, axis);
    let i1 = choose|i: int|
        0 <= i < first.len() && a.minimum.get(axis) == (#[trigger] first[i]).minimum.get(axis);
    let i2 = choose|i: int|
        0 <= i < second.len() && b.minimum.get(axis) == (#[trigger] second[i]).minimum.get(axis);
    let j1 = choose|i: int|
        0 <= i < first.len() && a.maximum.get(axis) == (#[trigger] first[i]).maximum.get(axis);
    let j2 = choose|i: int|
        0 <= i < second.len() && b.maximum.get(axis) == (#[trigger] second[i]).maximum.get(axis);
    assert(second.contains(first[i1]) && second.contains(first[j1]));
    assert(first.contains(second[i2]) && first.contains(second[j2]));
    let i1s = choose|j: int| 0 <= j < second.len() && second[j] == first[i1];
    let j1s = choose|j: int| 0 <= j < second.len() && second[j] == first[j1];
    let i2f = choose|j: int| 0 <= j < first.len() && first[j] == second[i2];
    let j2f = choose|j: int| 0 <= j < first.len() && first[j] == second[j2];
    assert(b.minimum.get(axis) <= second[i1s].minimum.get(axis));
    assert(second[j1s].maximum.get(axis) <= b.maximum.get(axis));
    assert(a.minimum.get(axis) <= first[i2f].minimum.get(axis));
    assert(first[j2f].maximum.get(axis) <= a.maximum.get(axis));
}

/// Two non-empty sequences with the same members have the same folded union,
/// however often and in whatever order each member occurs.
pub proof fn lemma_union_all_same_members(first: Seq<AABB>, second: Seq<AABB>)
    requires
        first.len() > 0,
        second.len() > 0,
        members_within(first, second),
        members_within(second, first),
    ensures
        union_all(first) == union_all(second),
{
    lemma_union_all_same_reach(first, second, 0);
    lemma_union_all_same_reach(first, second, 1);
    lemma_union_all_same_reach(first, second, 2);
}

/// Folding the same boxes in any order yields the same box.
pub proof fn lemma_union_all_any_order(first: Seq<AABB>, second: Seq<AABB>)
    requires
        first.len() > 0,
        first.to_multiset() == second.to_multiset(),
    ensures
        union_all(first) == union_all(second),
{
    first.to_multiset_ensures();
    second.to_multiset_ensures();
    assert(second.len() == first.len());
    assert forall|i: int| 0 <= i < first.len() implies second.contains(#[trigger] first[i]) by {
        assert(first.contains(first[i]));
        assert(second.to_multiset().count(first[i]) > 0);
    }
    assert forall|i: int| 0 <= i < second.len() implies first.contains(#[trigger] second[i]) by {
        assert(second.contains(second[i]));
        assert(first.to_multiset().count(second[i]) > 0);
    }
    lemma_union_all_same_members(first, second);
}

/// Folding two runs one after the other gives the union of their two folds.
pub proof fn lemma_union_all_concat(first: Seq<AABB>, second: Seq<AABB>)
    requires
        first.len() > 0,
        second.len() > 0,
    ensures
        union_all(first + second) == union_all(first).union(union_all(second)),
    decreases second.len(),
{
    let whole = first + second;
    assert(whole.last() == second.last());
    if second.len() == 1 {
        assert(whole.drop_last() =~= first);
    } else {
        assert(whole.drop_last() =~= first + second.drop_last());
        lemma_union_all_concat(first, second.drop_last());
        lemma_union_associative(
            union_all(first),
            union_all(second.drop_last()),
            second.last(),
        );
    }
}

/// The later of two exact parameters.
pub open spec fn later(a: Bound, b: Bound) -> Bound {
    if precedes(a, b) {
        b
    } else {
        a
    }
}

/// The earlier of two exact parameters.
pub open spec fn earlier(a: Bound, b: Bound) -> Bound {
    if precedes(b, a) {
        b
    } else {
        a
    }
}

/// The exact parameter half way between two others.
pub open spec fn midway(a: Bound, b: Bound) -> Bound {
    Bound { num: a.num * b.den + b.num * a.den, den: 2 * (a.den * b.den) }
}

proof fn lemma_later_is_latest(a: Bound, b: Bound)
    ensures
        !precedes(later(a, b), a),
        !precedes(later(a, b), b),
        later(a, b) == a || later(a, b) == b,
        a.den > 0 && b.den > 0 ==> later(a, b).den > 0,
{
}

proof fn lemma_earlier_is_earliest(a: Bound, b: Bound)
    ensures
        !precedes(a, earlier(a, b)),
        !precedes(b, earlier(a, b)),
        earlier(a, b) == a || earlier(a, b) == b,
        a.den > 0 && b.den > 0 ==> earlier(a, b).den > 0,
{
}

/// What is not after something that is not after a third is not after the
/// third.
proof fn lemma_not_after_then_before(a: Bound, m: Bound, b: Bound)
    requires
        a.den > 0,
        m.den > 0,
        b.den > 0,
        !precedes(m, a),
        !precedes(b, m),
    ensures
        !precedes(b, a),
{
    let x = a.num * m.den;
    let y = m.num * a.den;
    let u = m.num * b.den;
    let v = b.num * m.den;
    assert(x * b.den <= y * b.den) by (nonlinear_arith)
        requires
            x <= y,
            b.den > 0,
    ;
    assert(u * a.den <= v * a.den) by (nonlinear_arith)
        requires
            u <= v,
            a.den > 0,
    ;
    assert(y * b.den == u * a.den) by (nonlinear_arith)
        requires
            y == m.num * a.den,
            u == m.num * b.den,
    ;
    assert(x * b.den == (a.num * b.den) * m.den) by (nonlinear_arith)
        requires
            x == a.num * m.den,
    ;
    assert(v * a.den == (b.num * a.den) * m.den) by (nonlinear_arith)
        requires
            v == b.num * m.den,
    ;
    assert(a.num * b.den <= b.num * a.den) by (nonlinear_arith)
        requires
            (a.num * b.den) * m.den <= (b.num * a.den) * m.den,
            m.den > 0,
    ;
}

/// What is not after something that precedes a third precedes the third.
proof fn lemma_not_after_before(a: Bound, m: Bound, b: Bound)
    requires
        a.den > 0,
        m.den > 0,
        b.den > 0,
        !precedes(m, a),
        precedes(m, b),
    ensures
        precedes(a, b),
{
    let x = a.num * m.den;
    let y = m.num * a.den;
    let u = m.num * b.den;
    let v = b.num * m.den;
    assert(x * b.den <= y * b.den) by (nonlinear_arith)
        requires
            x <= y,
            b.den > 0,
    ;
    assert(u * a.den < v * a.den) by (nonlinear_arith)
        requires
            u < v,
            a.den > 0,
    ;
    assert(y * b.den == u * a.den) by (nonlinear_arith)
        requires
            y == m.num * a.den,
            u == m.num * b.den,
    ;
    assert(x * b.den == (a.num * b.den) * m.den) by (nonlinear_arith)
        requires
            x == a.num * m.den,
    ;
    assert(v * a.den == (b.num * a.den) * m.den) by (nonlinear_arith)
        requires
            v == b.num * m.den,
    ;
    assert(a.num * b.den < b.num * a.den) by (nonlinear_arith)
        requires
            (a.num * b.den) * m.den < (b.num * a.den) * m.den,
            m.den > 0,
    ;
}

/// What precedes something that is not after a third precedes the third.
proof fn lemma_before_not_after(a: Bound, m: Bound, b: Bound)
    requires
        a.den > 0,
        m.den > 0,
        b.den > 0,
        precedes(a, m),
        !precedes(b, m),
    ensures
        precedes(a, b),
{
    let x = a.num * m.den;
    let y = m.num * a.den;
    let u = m.num * b.den;
    let v = b.num * m.den;
    assert(x * b.den < y * b.den) by (nonlinear_arith)
        requires
            x < y,
            b.den > 0,
    ;
    assert(u * a.den <= v * a.den) by (nonlinear_arith)
        requires
            u <= v,
            a.den > 0,
    ;
    assert(y * b.den == u * a.den) by (nonlinear_arith)
        requires
            y == m.num * a.den,
            u == m.num * b.den,
    ;
    assert(x * b.den == (a.num * b.den) * m.den) by (nonlinear_arith)
        requires
            x == a.num * m.den,
    ;
    assert(v * a.den == (b.num * a.den) * m.den) by (nonlinear_arith)
        requires
            v == b.num * m.den,
    ;
    assert(a.num * b.den < b.num * a.den) by (nonlinear_arith)
        requires
            (a.num * b.den) * m.den < (b.num * a.den) * m.den,
            m.den > 0,
    ;
}

/// The parameter half way between two others lies strictly between them.
proof fn lemma_midway_between(a: Bound, b: Bound)
    requires
        a.den > 0,
        b.den > 0,
        precedes(a, b),
    ensures
        midway(a, b).den > 0,
        precedes(a, midway(a, b)),
        precedes(midway(a, b), b),
{
    let w = midway(a, b);
    let p = a.num * b.den;
    let q = b.num * a.den;
    let dd = a.den * b.den;
    assert(dd > 0) by (nonlinear_arith)
        requires
            dd == a.den * b.den,
            a.den > 0,
            b.den > 0,
    ;
    assert(a.num * w.den == 2 * (p * a.den)) by (nonlinear_arith)
        requires
            w.den == 2 * (a.den * b.den),
            p == a.num * b.den,
    ;
    assert(w.num * a.den == p * a.den + q * a.den) by (nonlinear_arith)
        requires
            w.num == p + q,
    ;
    assert(p * a.den < q * a.den) by (nonlinear_arith)
        requires
            p < q,
            a.den > 0,
    ;
    assert(b.num * w.den == 2 * (q * b.den)) by (nonlinear_arith)
        requires
            w.den == 2 * (a.den * b.den),
            q == b.num * a.den,
    ;
    assert(w.num * b.den == p * b.den + q * b.den) by (nonlinear_arith)
        requires
            w.num == p + q,
    ;
    assert(p * b.den < q * b.den) by (nonlinear_arith)
        requires
            p < q,
            b.den > 0,
    ;
}

/// The order of exact parameters is transitive.
pub proof fn lemma_precedes_transitive(a: Bound, w: Bound, b: Bound)
    requires
        a.den > 0,
        w.den > 0,
        b.den > 0,
        precedes(a, w),
        precedes(w, b),
    ensures
        precedes(a, b),
{
    let x = a.num * w.den;
    let y = w.num * a.den;
    let u = w.num * b.den;
    let v = b.num * w.den;
    assert(x * b.den < y * b.den) by (nonlinear_arith)
        requires
            x < y,
            b.den > 0,
    ;
    assert(u * a.den < v * a.den) by (nonlinear_arith)
        requires
            u < v,
            a.den > 0,
    ;
    assert(y * b.den == u * a.den) by (nonlinear_arith)
        requires
            y == w.num * a.den,
            u == w.num * b.den,
    ;
    assert(x * b.den == (a.num * b.den) * w.den) by (nonlinear_arith)
        requires
            x == a.num * w.den,
    ;
    assert(v * a.den == (b.num * a.den) * w.den) by (nonlinear_arith)
        requires
            v == b.num * w.den,
    ;
    assert(a.num * b.den < b.num * a.den) by (nonlinear_arith)
        requires
            (a.num * b.den) * w.den < (b.num * a.den) * w.den,
            w.den > 0,
    ;
}

impl AABB {
    /// The exact point of the ray at parameter `w` lies strictly between the
    /// two faces of the slab of `axis`.
    pub open spec fn between_faces(self, ray: Ray, axis: int, w: Bound) -> bool {
        self.minimum.get(axis) * w.den < ray.origin.get(axis) * w.den + w.num * ray.direction.get(
            axis,
        ) < self.maximum.get(axis) * w.den
    }

    /// The exact parameter `w` lies strictly inside the interval
    /// `(t_min, t_max)`, whose ends count units of `1 / ONE`.
    pub open spec fn within(w: Bound, t_min: int, t_max: int) -> bool {
        precedes(Bound { num: t_min, den: ONE as int }, w) && precedes(
            w,
            Bound { num: t_max, den: ONE as int },
        )
    }

    /// An exact parameter inside the interval at which the point of the ray
    /// lies strictly inside the box shows that the slab test succeeds.
    pub proof fn lemma_hit_witness(self, ray: Ray, t_min: int, t_max: int, w: Bound)
        requires
            w.den > 0,
            Self::within(w, t_min, t_max),
            forall|axis: int| 0 <= axis < 3 ==> #[trigger] self.between_faces(ray, axis, w),
        ensures
            self.hit_spec(ray, t_min, t_max),
    {
        assert forall|axis: int| 0 <= axis < 3 implies #[trigger] self.axis_open(ray, axis) by {
            assert(self.between_faces(ray, axis, w));
            if ray.direction.get(axis) == 0 {
                assert(self.minimum.get(axis) < ray.origin.get(axis) < self.maximum.get(axis))
                    by (nonlinear_arith)
                    requires
                        self.minimum.get(axis) * w.den < ray.origin.get(axis) * w.den + w.num * 0
                            < self.maximum.get(axis) * w.den,
                        w.den > 0,
                ;
            }
        }
        assert forall|i: int, j: int| 0 <= i < 4 && 0 <= j < 4 implies precedes(
            #[trigger] self.lower(ray, i, t_min),
            #[trigger] self.upper(ray, j, t_max),
        ) by {
            let lo = self.lower(ray, i, t_min);
            let hi = self.upper(ray, j, t_max);
            if i < 3 {
                let d = ray.direction.get(i);
                let o = ray.origin.get(i);
                assert(self.between_faces(ray, i, w));
                assert(lo.num * w.den < w.num * lo.den) by (nonlinear_arith)
                    requires
                        self.minimum.get(i) * w.den < o * w.den + w.num * d < self.maximum.get(i)
                            * w.den,
                        t_min * w.den < w.num * 1024,
                        d > 0 ==> lo.num == self.minimum.get(i) - o && lo.den == d,
                        d < 0 ==> lo.num == o - self.maximum.get(i) && lo.den == -d,
                        d == 0 ==> lo.num == t_min && lo.den == 1024,
                ;
            }
            if j < 3 {
                let d = ray.direction.get(j);
                let o = ray.origin.get(j);
                assert(self.between_faces(ray, j, w));
                assert(w.num * hi.den < hi.num * w.den) by (nonlinear_arith)
                    requires
                        self.minimum.get(j) * w.den < o * w.den + w.num * d < self.maximum.get(j)
                            * w.den,
                        w.num * 1024 < t_max * w.den,
                        d > 0 ==> hi.num == self.maximum.get(j) - o && hi.den == d,
                        d < 0 ==> hi.num == o - self.minimum.get(j) && hi.den == -d,
                        d == 0 ==> hi.num == t_max && hi.den == 1024,
                ;
            }
            lemma_precedes_transitive(lo, w, hi);
        }
    }

    /// The greatest of the four lower bounds.
    pub open spec fn latest_entry(self, ray: Ray, t_min: int) -> Bound {
        later(
            later(self.lower(ray, 0, t_min), self.lower(ray, 1, t_min)),
            later(self.lower(ray, 2, t_min), self.lower(ray, 3, t_min)),
        )
    }

    /// The least of the four upper bounds.
    pub open spec fn earliest_exit(self, ray: Ray, t_max: int) -> Bound {
        earlier(
            earlier(self.upper(ray, 0, t_max), self.upper(ray, 1, t_max)),
            earlier(self.upper(ray, 2, t_max), self.upper(ray, 3, t_max)),
        )
    }

    /// Where the slab test succeeds, the ray is strictly inside the box half
    /// way between its latest entry and its earliest exit, and that
    /// parameter lies strictly inside the interval.
    pub proof fn lemma_hit_midway(self, ray: Ray, t_min: int, t_max: int)
        requires
            self.hit_spec(ray, t_min, t_max),
        ensures
            midway(self.latest_entry(ray, t_min), self.earliest_exit(ray, t_max)).den > 0,
            Self::within(
                midway(self.latest_entry(ray, t_min), self.earliest_exit(ray, t_max)),
                t_min,
                t_max,
            ),
            forall|axis: int|
                0 <= axis < 3 ==> #[trigger] self.between_faces(
                    ray,
                    axis,
                    midway(self.latest_entry(ray, t_min), self.earliest_exit(ray, t_max)),
                ),
    {
        let l0 = self.lower(ray, 0, t_min);
        let l1 = self.lower(ray, 1, t_min);
        let l2 = self.lower(ray, 2, t_min);
        let l3 = self.lower(ray, 3, t_min);
        let u0 = self.upper(ray, 0, t_max);
        let u1 = self.upper(ray, 1, t_max);
        let u2 = self.upper(ray, 2, t_max);
        let u3 = self.upper(ray, 3, t_max);
        let entry = self.latest_entry(ray, t_min);
        let exit = self.earliest_exit(ray, t_max);
        let w = midway(entry, exit);
        assert(precedes(entry, exit));
        lemma_later_is_latest(l0, l1);
        lemma_later_is_latest(l2, l3);
        lemma_later_is_latest(later(l0, l1), later(l2, l3));
        lemma_earlier_is_earliest(u0, u1);
        lemma_earlier_is_earliest(u2, u3);
        lemma_earlier_is_earliest(earlier(u0, u1), earlier(u2, u3));
        lemma_midway_between(entry, exit);
        lemma_not_after_then_before(l0, later(l0, l1), entry);
        lemma_not_after_then_before(l1, later(l0, l1), entry);
        lemma_not_after_then_before(l2, later(l2, l3), entry);
        lemma_not_after_then_before(l3, later(l2, l3), entry);
        lemma_not_after_then_before(exit, earlier(u0, u1), u0);
        lemma_not_after_then_before(exit, earlier(u0, u1), u1);
        lemma_not_after_then_before(exit, earlier(u2, u3), u2);
        lemma_not_after_then_before(exit, earlier(u2, u3), u3);
        assert forall|i: int| 0 <= i < 4 implies precedes(#[trigger] self.lower(ray, i, t_min), w)
            && precedes(w, #[trigger] self.upper(ray, i, t_max)) by {
            let l = self.lower(ray, i, t_min);
            let u = self.upper(ray, i, t_max);
            assert(l == l0 || l == l1 || l == l2 || l == l3);
            assert(u == u0 || u == u1 || u == u2 || u == u3);
            lemma_not_after_before(l, entry, w);
            lemma_before_not_after(w, exit, u);
        }
        assert(precedes(self.lower(ray, 3, t_min), w) && precedes(w, self.upper(ray, 3, t_max)));
        assert forall|axis: int| 0 <= axis < 3 implies #[trigger] self.between_faces(
            ray,
            axis,
            w,
        ) by {
            let l = self.lower(ray, axis, t_min);
            let u = self.upper(ray, axis, t_max);
            let d = ray.direction.get(axis);
            let o = ray.origin.get(axis);
            assert(precedes(l, w) && precedes(w, u));
            assert(self.axis_open(ray, axis));
            assert(self.minimum.get(axis) * w.den < o * w.den + w.num * d < self.maximum.get(axis)
                * w.den) by (nonlinear_arith)
                requires
                    w.den > 0,
                    l.num * w.den < w.num * l.den,
                    w.num * u.den < u.num * w.den,
                    d > 0 ==> l.num == self.minimum.get(axis) - o && l.den == d && u.num
                        == self.maximum.get(axis) - o && u.den == d,
                    d < 0 ==> l.num == o - self.maximum.get(axis) && l.den == -d && u.num == o
                        - self.minimum.get(axis) && u.den == -d,
                    d == 0 ==> self.minimum.get(axis) < o < self.maximum.get(axis),
            ;
        }
    }

    /// The slab test succeeds exactly when the ray is strictly inside the
    /// box at some exact parameter strictly inside the interval.
    pub proof fn lemma_hit_means_inside(self, ray: Ray, t_min: int, t_max: int)
        ensures
            self.hit_spec(ray, t_min, t_max) <==> exists|w: Bound|
                {
                    &&& w.den > 0
                    &&& #[trigger] Self::within(w, t_min, t_max)
                    &&& forall|axis: int| 0 <= axis < 3 ==> #[trigger] self.between_faces(ray, axis, w)
                },
    {
        if self.hit_spec(ray, t_min, t_max) {
            self.lemma_hit_midway(ray, t_min, t_max);
            let w = midway(self.latest_entry(ray, t_min), self.earliest_exit(ray, t_max));
            assert(Self::within(w, t_min, t_max));
        }
        if exists|w: Bound|
            {
                &&& w.den > 0
                &&& #[trigger] Self::within(w, t_min, t_max)
                &&& forall|axis: int| 0 <= axis < 3 ==> #[trigger] self.between_faces(ray, axis, w)
            } {
            let w = choose|w: Bound|
                {
                    &&& w.den > 0
                    &&& #[trigger] Self::within(w, t_min, t_max)
                    &&& forall|axis: int| 0 <= axis < 3 ==> #[trigger] self.between_faces(ray, axis, w)
                };
            self.lemma_hit_witness(ray, t_min, t_max, w);
        }
    }

    /// A ray that meets a box meets every box that encloses it.
    pub proof fn lemma_hit_monotonic(self, inner: AABB, ray: Ray, t_min: int, t_max: int)
        requires
            self.encloses(inner),
            inner.hit_spec(ray, t_min, t_max),
        ensures
            self.hit_spec(ray, t_min, t_max),
    {
        assert forall|axis: int| 0 <= axis < 3 implies #[trigger] self.axis_open(ray, axis) by {
            assert(inner.axis_open(ray, axis));
        }
        assert forall|i: int, j: int| 0 <= i < 4 && 0 <= j < 4 implies precedes(
            #[trigger] self.lower(ray, i, t_min),
            #[trigger] self.upper(ray, j, t_max),
        ) by {
            let lo = self.lower(ray, i, t_min);
            let hi = self.upper(ray, j, t_max);
            let lo_in = inner.lower(ray, i, t_min);
            let hi_in = inner.upper(ray, j, t_max);
            assert(precedes(lo_in, hi_in));
            assert(lo.den == lo_in.den && lo.num <= lo_in.num && lo.den > 0);
            assert(hi.den == hi_in.den && hi_in.num <= hi.num && hi.den > 0);
            assert(lo.num * hi.den < hi.num * lo.den) by (nonlinear_arith)
                requires
                    lo_in.num * hi.den < hi_in.num * lo.den,
                    lo.num <= lo_in.num,
                    hi_in.num <= hi.num,
                    lo.den > 0,
                    hi.den > 0,
            ;
        }
    }
}

} // verus!
