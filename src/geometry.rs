use vstd::prelude::*;

verus! {

/// A point with integer coordinates; the planar drawings keep `z` at zero.
#[derive(Clone, Copy, Debug, PartialEq, Eq, Structural)]
pub struct Point {
    pub x: i32,
    pub y: i32,
    pub z: i32,
}

/// One line element of a drawing, from `start` to `end`.
#[derive(Clone, Copy, Debug, PartialEq, Eq, Structural)]
pub struct Segment {
    pub start: Point,
    pub end: Point,
}

/// A point given at twice its coordinates, so that the midpoint of two
/// integer points is exact.
#[derive(Clone, Copy, Debug, PartialEq, Eq, Structural)]
pub struct DoubledPoint {
    pub x: i64,
    pub y: i64,
    pub z: i64,
}

/// Coordinate `c` (0 for x, 1 for y, 2 for z) of a point.
pub open spec fn coord(p: Point, c: int) -> int {
    if c == 0 {
        p.x as int
    } else if c == 1 {
        p.y as int
    } else {
        p.z as int
    }
}

/// `lo` and `hi` bound every endpoint of the segments in each coordinate.
pub open spec fn encloses(segs: Seq<Segment>, lo: Point, hi: Point) -> bool {
    forall|c: int, k: int|
        #![trigger coord(segs[k].start, c)]
        #![trigger coord(segs[k].end, c)]
        0 <= c < 3 && 0 <= k < segs.len() ==> {
            &&& coord(lo, c) <= coord(segs[k].start, c) <= coord(hi, c)
            &&& coord(lo, c) <= coord(segs[k].end, c) <= coord(hi, c)
        }
}

/// Value `v` is coordinate `c` of an endpoint of one of the first `n` segments.
pub open spec fn attained(segs: Seq<Segment>, n: int, c: int, v: int) -> bool {
    exists|k: int|
        0 <= k < n && (coord(#[trigger] segs[k].start, c) == v || coord(segs[k].end, c) == v)
}

/// `(lo, hi)` is the smallest box holding every endpoint of the segments.
pub open spec fn is_bounding_box(segs: Seq<Segment>, lo: Point, hi: Point) -> bool {
    &&& encloses(segs, lo, hi)
    &&& forall|c: int|
        0 <= c < 3 ==> attained(segs, segs.len() as int, c, #[trigger] coord(lo, c))
            && attained(segs, segs.len() as int, c, coord(hi, c))
}

/// A set of segments has one bounding box.
pub proof fn lemma_bounding_box_unique(segs: Seq<Segment>, lo: Point, hi: Point, lo2: Point, hi2: Point)
    requires
        is_bounding_box(segs, lo, hi),
        is_bounding_box(segs, lo2, hi2),
    ensures
        lo == lo2,
        hi == hi2,
{
    assert forall|c: int| 0 <= c < 3 implies coord(lo, c) == coord(lo2, c) && coord(hi, c) == coord(hi2, c) by {
        assert(attained(segs, segs.len() as int, c, coord(lo, c)));
        assert(attained(segs, segs.len() as int, c, coord(lo2, c)));
        assert(attained(segs, segs.len() as int, c, coord(hi, c)));
        assert(attained(segs, segs.len() as int, c, coord(hi2, c)));
        let k1 = choose|k: int| 0 <= k < segs.len() && (coord(#[trigger] segs[k].start, c) == coord(lo, c) || coord(segs[k].end, c) == coord(lo, c));
        let k2 = choose|k: int| 0 <= k < segs.len() && (coord(#[trigger] segs[k].start, c) == coord(lo2, c) || coord(segs[k].end, c) == coord(lo2, c));
        let k3 = choose|k: int| 0 <= k < segs.len() && (coord(#[trigger] segs[k].start, c) == coord(hi, c) || coord(segs[k].end, c) == coord(hi, c));
        let k4 = choose|k: int| 0 <= k < segs.len() && (coord(#[trigger] segs[k].start, c) == coord(hi2, c) || coord(segs[k].end, c) == coord(hi2, c));
        assert(coord(lo2, c) <= coord(segs[k1].start, c) && coord(lo2, c) <= coord(segs[k1].end, c));
        assert(coord(lo, c) <= coord(segs[k2].start, c) && coord(lo, c) <= coord(segs[k2].end, c));
        assert(coord(hi2, c) >= coord(segs[k3].start, c) && coord(hi2, c) >= coord(segs[k3].end, c));
        assert(coord(hi, c) >= coord(segs[k4].start, c) && coord(hi, c) >= coord(segs[k4].end, c));
    }
    assert(coord(lo, 0) == coord(lo2, 0) && coord(lo, 1) == coord(lo2, 1) && coord(lo, 2) == coord(lo2, 2));
    assert(coord(hi, 0) == coord(hi2, 0) && coord(hi, 1) == coord(hi2, 1) && coord(hi, 2) == coord(hi2, 2));
}

/// A value attained among the first `n` segments is attained among more.
proof fn lemma_attained_grow(segs: Seq<Segment>, n: int, m: int, c: int, v: int)
    requires
        attained(segs, n, c, v),
        n <= m,
    ensures
        attained(segs, m, c, v),
{
    let k = choose|k: int|
        0 <= k < n && (coord(#[trigger] segs[k].start, c) == v || coord(segs[k].end, c) == v);
    assert(0 <= k < m && (coord(segs[k].start, c) == v || coord(segs[k].end, c) == v));
}

/// The box `(lo, hi)` grown to hold `p`.
fn widen(lo: Point, hi: Point, p: Point) -> (r: (Point, Point))
    ensures
        forall|c: int|
            0 <= c < 3 ==> {
                &&& #[trigger] coord(r.0, c) == if coord(p, c) < coord(lo, c) {
                    coord(p, c)
                } else {
                    coord(lo, c)
                }
                &&& coord(r.1, c) == if coord(p, c) > coord(hi, c) {
                    coord(p, c)
                } else {
                    coord(hi, c)
                }
            },
{
    let nlo = Point {
        x: if p.x < lo.x { p.x } else { lo.x },
        y: if p.y < lo.y { p.y } else { lo.y },
        z: if p.z < lo.z { p.z } else { lo.z },
    };
    let nhi = Point {
        x: if p.x > hi.x { p.x } else { hi.x },
        y: if p.y > hi.y { p.y } else { hi.y },
        z: if p.z > hi.z { p.z } else { hi.z },
    };
    (nlo, nhi)
}

/// The smallest box holding every endpoint of the segments, or `None` when
/// there is no segment.
pub fn bounding_box_of(segs: &Vec<Segment>) -> (r: Option<(Point, Point)>)
    ensures
        r is None <==> segs@.len() == 0,
        r matches Some((lo, hi)) ==> is_bounding_box(segs@, lo, hi),
{
    if segs.len() == 0 {
        return None;
    }
    let first = segs[0];
    let (mut lo, mut hi) = widen(first.start, first.start, first.end);
    assert forall|c: int| 0 <= c < 3 implies attained(segs@, 1, c, #[trigger] coord(lo, c))
        && attained(segs@, 1, c, coord(hi, c)) by {
        assert(coord(segs@[0].start, c) == coord(first.start, c));
    }
    let mut i: usize = 1;
    while i < segs.len()
        invariant
            1 <= i <= segs@.len(),
            forall|c: int, k: int|
                #![trigger coord(segs@[k].start, c)]
                #![trigger coord(segs@[k].end, c)]
                0 <= c < 3 && 0 <= k < i ==> {
                    &&& coord(lo, c) <= coord(segs@[k].start, c) <= coord(hi, c)
                    &&& coord(lo, c) <= coord(segs@[k].end, c) <= coord(hi, c)
                },
            forall|c: int|
                0 <= c < 3 ==> attained(segs@, i as int, c, #[trigger] coord(lo, c))
                    && attained(segs@, i as int, c, coord(hi, c)),
        decreases segs@.len() - i,
    {
        let s = segs[i];
        let ghost (lo0, hi0) = (lo, hi);
        let (lo1, hi1) = widen(lo, hi, s.start);
        let (lo2, hi2) = widen(lo1, hi1, s.end);
        lo = lo2;
        hi = hi2;
        assert forall|c: int| 0 <= c < 3 implies attained(segs@, i + 1, c, #[trigger] coord(lo, c))
            && attained(segs@, i + 1, c, coord(hi, c)) by {
            assert(coord(segs@[i as int].start, c) == coord(s.start, c));
            assert(coord(segs@[i as int].end, c) == coord(s.end, c));
            assert(coord(lo1, c) == coord(lo0, c) || coord(lo1, c) == coord(s.start, c));
            assert(coord(hi1, c) == coord(hi0, c) || coord(hi1, c) == coord(s.start, c));
            if coord(lo, c) == coord(lo0, c) {
                lemma_attained_grow(segs@, i as int, i + 1, c, coord(lo0, c));
            }
            if coord(hi, c) == coord(hi0, c) {
                lemma_attained_grow(segs@, i as int, i + 1, c, coord(hi0, c));
            }
        }
        assert forall|c: int, k: int| 0 <= c < 3 && 0 <= k < i + 1 implies {
            &&& coord(lo, c) <= #[trigger] coord(segs@[k].start, c) <= coord(hi, c)
            &&& coord(lo, c) <= coord(segs@[k].end, c) <= coord(hi, c)
        } by {
            assert(coord(lo1, c) <= coord(lo0, c) && coord(hi1, c) >= coord(hi0, c));
            assert(coord(lo1, c) <= coord(s.start, c) <= coord(hi1, c));
            assert(coord(lo2, c) <= coord(lo1, c));
            assert(coord(hi2, c) >= coord(hi1, c));
            assert(coord(lo2, c) <= coord(s.end, c) <= coord(hi2, c));
            if k == i {
                assert(coord(segs@[i as int].start, c) == coord(s.start, c));
                assert(coord(segs@[i as int].end, c) == coord(s.end, c));
            } else {
                assert(coord(lo0, c) <= coord(segs@[k].end, c) <= coord(hi0, c));
            }
        }
        i = i + 1;
    }
    Some((lo, hi))
}

/// The center of the smallest box holding every endpoint, at twice its
/// coordinates, or `None` when there is no segment.
pub fn center_of(segs: &Vec<Segment>) -> (r: Option<DoubledPoint>)
    ensures
        r is None <==> segs@.len() == 0,
        r matches Some(m) ==> exists|lo: Point, hi: Point|
            #![trigger is_bounding_box(segs@, lo, hi)]
            is_bounding_box(segs@, lo, hi) && m.x == lo.x + hi.x && m.y == lo.y + hi.y && m.z
                == lo.z + hi.z,
{
    match bounding_box_of(segs) {
        None => None,
        Some((lo, hi)) => Some(
            DoubledPoint {
                x: lo.x as i64 + hi.x as i64,
                y: lo.y as i64 + hi.y as i64,
                z: lo.z as i64 + hi.z as i64,
            },
        ),
    }
}

impl Segment {
    /// The segment that starts and ends at the origin.
    pub fn initial() -> (s: Segment)
        ensures
            s.start == (Point { x: 0, y: 0, z: 0 }),
            s.end == (Point { x: 0, y: 0, z: 0 }),
    {
        Segment { start: Point { x: 0, y: 0, z: 0 }, end: Point { x: 0, y: 0, z: 0 } }
    }
}

} // verus!
