//! The points of a box, nearest first.

use vstd::prelude::*;

verus! {

/// How far a point is from a middle, squared.
pub open spec fn reach(mid: (int, int), p: (int, int)) -> int {
    (p.0 - mid.0) * (p.0 - mid.0) + (p.1 - mid.1) * (p.1 - mid.1)
}

/// Whether a point is in a square box.
pub open spec fn boxed(lo: int, hi: int, p: (int, int)) -> bool {
    lo <= p.0 <= hi && lo <= p.1 <= hi
}

/// Points by their coordinates.
pub open spec fn points(ps: Seq<(i32, i32)>) -> Seq<(int, int)> {
    ps.map_values(|p: (i32, i32)| (p.0 as int, p.1 as int))
}

/// Whether a list is every point of a box, once each, nearest to a middle
/// first.
pub open spec fn fans(ps: Seq<(int, int)>, mid: (int, int), lo: int, hi: int) -> bool {
    &&& forall|i: int| 0 <= i < ps.len() ==> boxed(lo, hi, #[trigger] ps[i])
    &&& forall|p: (int, int)| #[trigger] boxed(lo, hi, p) ==> ps.contains(p)
    &&& ps.no_duplicates()
    &&& forall|i: int, j: int|
        0 <= i < j < ps.len() ==> reach(mid, #[trigger] ps[i]) <= reach(mid, #[trigger] ps[j])
}

/// Whether a point comes before a place in a pass over the box at a distance.
spec fn before(mid: (int, int), d: int, y: int, x: int, p: (int, int)) -> bool {
    ||| reach(mid, p) < d
    ||| reach(mid, p) == d && (p.1 < y || p.1 == y && p.0 < x)
}

/// Whether a list is every point of a box that comes before a place.
spec fn so_far(
    ps: Seq<(int, int)>,
    mid: (int, int),
    lo: int,
    hi: int,
    d: int,
    y: int,
    x: int,
) -> bool {
    &&& forall|i: int|
        0 <= i < ps.len() ==> boxed(lo, hi, #[trigger] ps[i]) && before(mid, d, y, x, ps[i])
    &&& forall|p: (int, int)|
        boxed(lo, hi, p) && #[trigger] before(mid, d, y, x, p) ==> ps.contains(p)
    &&& ps.no_duplicates()
    &&& forall|i: int, j: int|
        0 <= i < j < ps.len() ==> reach(mid, #[trigger] ps[i]) <= reach(mid, #[trigger] ps[j])
}

/// No point of a box is further off than a corner can be.
proof fn lemma_reach(mid: (int, int), lo: int, hi: int, p: (int, int))
    requires
        boxed(lo, hi, p),
        boxed(lo, hi, mid),
    ensures
        0 <= reach(mid, p) <= 2 * (hi - lo) * (hi - lo),
{
    let (a, b, w) = (p.0 - mid.0, p.1 - mid.1, hi - lo);
    assert(0 <= a * a <= w * w) by (nonlinear_arith)
        requires
            -w <= a <= w,
    ;
    assert(0 <= b * b <= w * w) by (nonlinear_arith)
        requires
            -w <= b <= w,
    ;
    assert(2 * w * w == w * w + w * w) by (nonlinear_arith);
}

/// One place further, with the point there taken if it is at the distance.
proof fn lemma_next(
    ps: Seq<(int, int)>,
    mid: (int, int),
    lo: int,
    hi: int,
    d: int,
    y: int,
    x: int,
    taken: bool,
)
    requires
        so_far(ps, mid, lo, hi, d, y, x),
        boxed(lo, hi, (x, y)),
        taken == (reach(mid, (x, y)) == d),
    ensures
        so_far(
            if taken {
                ps.push((x, y))
            } else {
                ps
            },
            mid,
            lo,
            hi,
            d,
            y,
            x + 1,
        ),
{
    let here = (x, y);
    let now = if taken {
        ps.push(here)
    } else {
        ps
    };
    assert forall|p: (int, int)| boxed(lo, hi, p) && #[trigger] before(
        mid,
        d,
        y,
        x + 1,
        p,
    ) implies now.contains(p) by {
        if taken && p == here {
            assert(now[ps.len() as int] == p);
        } else {
            assert(before(mid, d, y, x, p));
            let i = choose|i: int| 0 <= i < ps.len() && ps[i] == p;
            assert(now[i] == p);
        }
    }
    assert forall|i: int| 0 <= i < now.len() implies boxed(lo, hi, #[trigger] now[i]) && before(
        mid,
        d,
        y,
        x + 1,
        now[i],
    ) by {
        if i < ps.len() {
            assert(now[i] == ps[i]);
        }
    }
    assert forall|i: int, j: int| 0 <= i < j < now.len() implies reach(mid, #[trigger] now[i])
        <= reach(mid, #[trigger] now[j]) by {
        assert(now[i] == ps[i]);
        if j < ps.len() {
            assert(now[j] == ps[j]);
        }
    }
    assert(now.no_duplicates()) by {
        if taken {
            assert(!before(mid, d, y, x, here));
            assert forall|i: int, j: int|
                0 <= i < now.len() && 0 <= j < now.len() && i != j implies now[i] != now[j] by {
                if i < ps.len() && j < ps.len() {
                    assert(now[i] == ps[i] && now[j] == ps[j]);
                } else if i < ps.len() {
                    assert(now[i] == ps[i]);
                } else {
                    assert(now[j] == ps[j]);
                }
            }
        }
    }
}

/// Every point of a box, nearest to a middle first.
pub fn fan(mid: (i32, i32), lo: i32, hi: i32) -> (ps: Vec<(i32, i32)>)
    requires
        -16 <= lo <= hi <= 16,
        boxed(lo as int, hi as int, (mid.0 as int, mid.1 as int)),
    ensures
        fans(points(ps@), (mid.0 as int, mid.1 as int), lo as int, hi as int),
{
    let ghost m = (mid.0 as int, mid.1 as int);
    let ghost (l, h) = (lo as int, hi as int);
    let mut ps: Vec<(i32, i32)> = Vec::new();
    let width: i32 = hi - lo;
    proof {
        assert(0 <= width * width <= 32 * 32) by (nonlinear_arith)
            requires
                0 <= width <= 32,
        ;
        assert(2 * width * width == 2 * (width * width)) by (nonlinear_arith);
    }
    let most: i32 = 2 * (width * width);
    let mut d: i32 = 0;
    let mut y: i32 = lo;
    let mut x: i32 = lo;
    proof {
        assert forall|p: (int, int)| boxed(l, h, p) implies !#[trigger] before(
            m,
            0,
            l,
            l,
            p,
        ) by {
            lemma_reach(m, l, h, p);
        }
    }
    while d <= most
        invariant
            -16 <= lo <= hi <= 16,
            (l, h) == (lo as int, hi as int),
            m == (mid.0 as int, mid.1 as int),
            boxed(l, h, m),
            most == 2 * (h - l) * (h - l),
            0 <= most <= 2048,
            0 <= d <= most + 1,
            lo <= y <= hi,
            lo <= x <= hi,
            d == most + 1 ==> y == lo && x == lo,
            so_far(points(ps@), m, l, h, d as int, y as int, x as int),
        decreases most + 1 - d, hi - y, hi - x,
    {
        let (a, b) = (x - mid.0, y - mid.1);
        assert(0 <= a * a <= 32 * 32) by (nonlinear_arith)
            requires
                -32 <= a <= 32,
        ;
        assert(0 <= b * b <= 32 * 32) by (nonlinear_arith)
            requires
                -32 <= b <= 32,
        ;
        let taken = a * a + b * b == d;
        let ghost was = points(ps@);
        proof {
            lemma_next(was, m, l, h, d as int, y as int, x as int, taken);
        }
        if taken {
            ps.push((x, y));
            assert(points(ps@) =~= was.push((x as int, y as int)));
        }
        let ghost now = points(ps@);
        if x < hi {
            x = x + 1;
        } else if y < hi {
            proof {
                assert forall|p: (int, int)| boxed(l, h, p) implies #[trigger] before(
                    m,
                    d as int,
                    y + 1,
                    l,
                    p,
                ) == before(m, d as int, y as int, x + 1, p) by {}
                assert forall|i: int| 0 <= i < now.len() implies boxed(
                    l,
                    h,
                    #[trigger] now[i],
                ) && before(m, d as int, y + 1, l, now[i]) by {
                    assert(before(m, d as int, y as int, x + 1, now[i]));
                }
                assert forall|p: (int, int)| boxed(l, h, p) && #[trigger] before(
                    m,
                    d as int,
                    y + 1,
                    l,
                    p,
                ) implies now.contains(p) by {
                    assert(before(m, d as int, y as int, x + 1, p));
                }
            }
            y = y + 1;
            x = lo;
        } else {
            proof {
                assert forall|i: int| 0 <= i < now.len() implies boxed(
                    l,
                    h,
                    #[trigger] now[i],
                ) && before(m, d + 1, l, l, now[i]) by {
                    assert(before(m, d as int, y as int, x + 1, now[i]));
                }
                assert forall|p: (int, int)| boxed(l, h, p) && #[trigger] before(
                    m,
                    d + 1,
                    l,
                    l,
                    p,
                ) implies now.contains(p) by {
                    assert(before(m, d as int, y as int, x + 1, p));
                }
            }
            d = d + 1;
            y = lo;
            x = lo;
        }
    }
    proof {
        assert forall|p: (int, int)| #[trigger] boxed(l, h, p) implies points(ps@).contains(
            p,
        ) by {
            lemma_reach(m, l, h, p);
            assert(before(m, d as int, y as int, x as int, p));
        }
    }
    ps
}

} // verus!
