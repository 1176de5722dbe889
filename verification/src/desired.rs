//! The set of chunks an observer wants resident, nearest first.

use crate::coord::ChunkCoord;
use vstd::prelude::*;
use vstd::relations::sorted_by;
use vstd::relations::total_ordering;
use vstd::seq_lib::lemma_multiset_commutative;
use vstd::seq_lib::lemma_sorted_unique;

verus! {

/// The order in which candidates around `center` are served: by squared
/// distance to `center`, and among chunks equally far away by row (`z`)
/// and then by column (`x`).
pub open spec fn no_later(a: ChunkCoord, b: ChunkCoord, center: ChunkCoord) -> bool {
    let da = a.dist_sq(center);
    let db = b.dist_sq(center);
    da < db || (da == db && (a.z < b.z || (a.z == b.z && a.x <= b.x)))
}

/// [`no_later`] as a relation on coordinates.
pub open spec fn serve_order(center: ChunkCoord) -> spec_fn(ChunkCoord, ChunkCoord) -> bool {
    |a: ChunkCoord, b: ChunkCoord| no_later(a, b, center)
}

/// The serve order is a total order: any two different chunks are served
/// one strictly before the other.
pub proof fn lemma_serve_order_total(center: ChunkCoord)
    ensures
        total_ordering(serve_order(center)),
{
    let r = serve_order(center);
    assert forall|x: ChunkCoord, y: ChunkCoord| #[trigger] r(x, y) && #[trigger] r(y, x) implies x
        == y by {}
    assert forall|x: ChunkCoord, y: ChunkCoord, z: ChunkCoord| #[trigger]
        r(x, y) && #[trigger] r(y, z) implies r(x, z) by {}
    assert forall|x: ChunkCoord, y: ChunkCoord| #[trigger] r(x, y) || #[trigger] r(y, x) by {}
    assert forall|x: ChunkCoord| #[trigger] r(x, x) by {}
}

/// Decides whether `a` is served no later than `b`.
pub fn is_no_later(a: &ChunkCoord, b: &ChunkCoord, center: &ChunkCoord) -> (r: bool)
    ensures
        r == no_later(*a, *b, *center),
{
    let da: u128 = a.distance_squared(center);
    let db: u128 = b.distance_squared(center);
    da < db || (da == db && (a.z < b.z || (a.z == b.z && a.x <= b.x)))
}

/// Appending one element to a merged run and to one of its two sources
/// keeps the run the sum of its sources.
proof fn lemma_push_both(
    whole: Seq<ChunkCoord>,
    part: Seq<ChunkCoord>,
    rest: Seq<ChunkCoord>,
    x: ChunkCoord,
)
    requires
        whole.to_multiset() == part.to_multiset().add(rest.to_multiset()),
    ensures
        whole.push(x).to_multiset() == part.push(x).to_multiset().add(rest.to_multiset()),
{
    broadcast use vstd::multiset::group_multiset_axioms;

    vstd::seq_lib::to_multiset_build(whole, x);
    vstd::seq_lib::to_multiset_build(part, x);
    assert(whole.to_multiset().insert(x) =~= part.to_multiset().insert(x).add(
        rest.to_multiset(),
    ));
}

/// Merges two served-order runs into one.
fn merge_runs(a: &Vec<ChunkCoord>, b: &Vec<ChunkCoord>, center: &ChunkCoord) -> (out: Vec<
    ChunkCoord,
>)
    requires
        sorted_by(a@, serve_order(*center)),
        sorted_by(b@, serve_order(*center)),
    ensures
        sorted_by(out@, serve_order(*center)),
        out@.to_multiset() == a@.to_multiset().add(b@.to_multiset()),
{
    broadcast use vstd::seq_lib::group_to_multiset_ensures;
    broadcast use vstd::multiset::group_multiset_axioms;

    let ghost r = serve_order(*center);
    let mut out: Vec<ChunkCoord> = Vec::new();
    let mut i: usize = 0;
    let mut j: usize = 0;
    proof {
        lemma_serve_order_total(*center);
        assert(a@.take(0) =~= Seq::<ChunkCoord>::empty());
        assert(b@.take(0) =~= Seq::<ChunkCoord>::empty());
    }
    while i < a.len() || j < b.len()
        invariant
            r == serve_order(*center),
            total_ordering(r),
            sorted_by(a@, r),
            sorted_by(b@, r),
            0 <= i <= a.len(),
            0 <= j <= b.len(),
            sorted_by(out@, r),
            out@.to_multiset() == a@.take(i as int).to_multiset().add(
                b@.take(j as int).to_multiset(),
            ),
            forall|k: int| 0 <= k < out@.len() && i < a.len() ==> r(#[trigger] out@[k], a@[i as int]),
            forall|k: int| 0 <= k < out@.len() && j < b.len() ==> r(#[trigger] out@[k], b@[j as int]),
        decreases a.len() - i + b.len() - j,
    {
        let take_left: bool = if i >= a.len() {
            false
        } else if j >= b.len() {
            true
        } else {
            is_no_later(&a[i], &b[j], center)
        };
        let ghost prev = out@;
        if take_left {
            let x = a[i];
            out.push(x);
            proof {
                assert(a@.take(i + 1) =~= a@.take(i as int).push(x));
                assert(out@ =~= prev.push(x));
                lemma_push_both(prev, a@.take(i as int), b@.take(j as int), x);
                assert forall|k: int| 0 <= k < out@.len() && i + 1 < a.len() implies r(
                    #[trigger] out@[k],
                    a@[i + 1],
                ) by {
                    assert(r(a@[i as int], a@[i + 1]));
                    if k < prev.len() {
                        assert(r(prev[k], a@[i as int]));
                    }
                }
                assert forall|k: int| 0 <= k < out@.len() && j < b.len() implies r(
                    #[trigger] out@[k],
                    b@[j as int],
                ) by {
                    if k < prev.len() {
                        assert(out@[k] == prev[k]);
                    }
                }
            }
            i = i + 1;
        } else {
            let y = b[j];
            out.push(y);
            proof {
                assert(b@.take(j + 1) =~= b@.take(j as int).push(y));
                assert(out@ =~= prev.push(y));
                assert(a@.take(i as int).to_multiset().add(b@.take(j as int).to_multiset())
                    =~= b@.take(j as int).to_multiset().add(a@.take(i as int).to_multiset()));
                lemma_push_both(prev, b@.take(j as int), a@.take(i as int), y);
                assert(a@.take(i as int).to_multiset().add(b@.take(j + 1).to_multiset())
                    =~= b@.take(j + 1).to_multiset().add(a@.take(i as int).to_multiset()));
                assert forall|k: int| 0 <= k < out@.len() && j + 1 < b.len() implies r(
                    #[trigger] out@[k],
                    b@[j + 1],
                ) by {
                    assert(r(b@[j as int], b@[j + 1]));
                    if k < prev.len() {
                        assert(r(prev[k], b@[j as int]));
                    }
                }
                assert forall|k: int| 0 <= k < out@.len() && i < a.len() implies r(
                    #[trigger] out@[k],
                    a@[i as int],
                ) by {
                    if k < prev.len() {
                        assert(out@[k] == prev[k]);
                    } else {
                        assert(r(b@[j as int], a@[i as int]) || r(a@[i as int], b@[j as int]));
                    }
                }
            }
            j = j + 1;
        }
    }
    proof {
        assert(a@.take(i as int) =~= a@);
        assert(b@.take(j as int) =~= b@);
    }
    out
}

/// Sorts `v[lo..hi]` into served order.
fn sort_range(v: &Vec<ChunkCoord>, lo: usize, hi: usize, center: &ChunkCoord) -> (out: Vec<
    ChunkCoord,
>)
    requires
        lo <= hi <= v.len(),
    ensures
        sorted_by(out@, serve_order(*center)),
        out@.to_multiset() == v@.subrange(lo as int, hi as int).to_multiset(),
    decreases hi - lo,
{
    if hi - lo <= 1 {
        let mut out: Vec<ChunkCoord> = Vec::new();
        if hi - lo == 1 {
            out.push(v[lo]);
        }
        proof {
            assert(out@ =~= v@.subrange(lo as int, hi as int));
        }
        out
    } else {
        let mid: usize = lo + (hi - lo) / 2;
        let left = sort_range(v, lo, mid, center);
        let right = sort_range(v, mid, hi, center);
        proof {
            lemma_multiset_commutative(
                v@.subrange(lo as int, mid as int),
                v@.subrange(mid as int, hi as int),
            );
            assert(v@.subrange(lo as int, hi as int) =~= v@.subrange(lo as int, mid as int)
                + v@.subrange(mid as int, hi as int));
        }
        merge_runs(&left, &right, center)
    }
}

/// Sorts chunk coordinates into the order in which they are served around
/// `center`: nearest first, ties by row and then by column.
pub fn sort_nearest_first(v: &Vec<ChunkCoord>, center: &ChunkCoord) -> (out: Vec<ChunkCoord>)
    ensures
        out@ == v@.sort_by(serve_order(*center)),
{
    let out = sort_range(v, 0, v.len(), center);
    proof {
        let r = serve_order(*center);
        lemma_serve_order_total(*center);
        assert(v@.subrange(0, v.len() as int) =~= v@);
        v@.lemma_sort_by_ensures(r);
        lemma_sorted_unique(out@, v@.sort_by(r), r);
    }
    out
}

/// First index on one axis of the square of radius `radius` around `c`,
/// held inside the range of chunk indices.
pub open spec fn span_lo(c: i32, radius: int) -> int {
    if c - radius < i32::MIN {
        i32::MIN as int
    } else {
        c - radius
    }
}

/// Last index on one axis of the square of radius `radius` around `c`,
/// held inside the range of chunk indices.
pub open spec fn span_hi(c: i32, radius: int) -> int {
    if c + radius > i32::MAX {
        i32::MAX as int
    } else {
        c + radius
    }
}

/// Number of indices on one axis of the square of radius `radius` around `c`.
pub open spec fn span_len(c: i32, radius: int) -> int {
    span_hi(c, radius) - span_lo(c, radius) + 1
}

/// The chunks within Chebyshev distance `radius` of `center`, row by row:
/// rows by ascending `z`, and ascending `x` inside a row.
pub open spec fn row_major(center: ChunkCoord, radius: int) -> Seq<ChunkCoord>
    recommends
        radius >= 0,
{
    let w = span_len(center.x, radius);
    let h = span_len(center.z, radius);
    Seq::new(
        (w * h) as nat,
        |i: int|
            ChunkCoord {
                x: (span_lo(center.x, radius) + i % w) as i32,
                z: (span_lo(center.z, radius) + i / w) as i32,
            },
    )
}

/// The chunks an observer in chunk `center` wants resident, in the order
/// in which they are served: every chunk within Chebyshev distance
/// `radius`, nearest first.
pub open spec fn desired_order(center: ChunkCoord, radius: int) -> Seq<ChunkCoord> {
    if radius < 0 {
        Seq::empty()
    } else {
        row_major(center, radius).sort_by(serve_order(center))
    }
}

/// Row and column of the `i`-th cell of a grid `w` wide and `h` high.
proof fn lemma_cell(i: int, w: int, h: int)
    requires
        w >= 1,
        h >= 1,
        0 <= i < w * h,
    ensures
        0 <= i % w < w,
        0 <= i / w < h,
        i == (i / w) * w + i % w,
{
    vstd::arithmetic::div_mod::lemma_fundamental_div_mod(i, w);
    vstd::arithmetic::div_mod::lemma_mod_bound(i, w);
    let q = i / w;
    assert(w * q == q * w) by (nonlinear_arith);
    if q >= h {
        assert(q * w >= h * w) by (nonlinear_arith)
            requires
                q >= h,
                w >= 1,
        ;
        assert(h * w == w * h) by (nonlinear_arith);
    }
    if q < 0 {
        assert(q * w <= -w) by (nonlinear_arith)
            requires
                q <= -1,
                w >= 1,
        ;
    }
}

/// The row-by-row listing holds every chunk of the square once, and no
/// other chunk.
pub proof fn lemma_row_major(center: ChunkCoord, radius: int)
    requires
        radius >= 0,
    ensures
        row_major(center, radius).len() == span_len(center.x, radius) * span_len(
            center.z,
            radius,
        ),
        row_major(center, radius).no_duplicates(),
        forall|c: ChunkCoord|
            row_major(center, radius).contains(c) <==> c.within(center, radius),
{
    let s = row_major(center, radius);
    let w = span_len(center.x, radius);
    let h = span_len(center.z, radius);
    let x_lo = span_lo(center.x, radius);
    let z_lo = span_lo(center.z, radius);
    assert(w * h >= 0) by (nonlinear_arith)
        requires
            w >= 1,
            h >= 1,
    ;
    assert forall|i: int, j: int| 0 <= i < s.len() && 0 <= j < s.len() && i != j implies s[i]
        != s[j] by {
        lemma_cell(i, w, h);
        lemma_cell(j, w, h);
    }
    assert forall|c: ChunkCoord| c.within(center, radius) implies s.contains(c) by {
        let col = c.x - x_lo;
        let row = c.z - z_lo;
        let k = row * w + col;
        assert(0 <= k < h * w) by (nonlinear_arith)
            requires
                0 <= row < h,
                0 <= col < w,
                k == row * w + col,
        ;
        assert(h * w == w * h) by (nonlinear_arith);
        vstd::arithmetic::div_mod::lemma_fundamental_div_mod_converse(k, w, row, col);
        assert(s[k] == c);
    }
    assert forall|c: ChunkCoord| s.contains(c) implies c.within(center, radius) by {
        let i = choose|i: int| 0 <= i < s.len() && s[i] == c;
        lemma_cell(i, w, h);
    }
}

/// What the served order is: it holds exactly the chunks of the square,
/// each once, and every chunk in it is served strictly before the chunks
/// behind it. Where the square does not reach the end of the index range,
/// it holds `(2 * radius + 1)^2` chunks.
pub proof fn lemma_desired_order(center: ChunkCoord, radius: int)
    requires
        radius >= 0,
    ensures
        desired_order(center, radius).len() == span_len(center.x, radius) * span_len(
            center.z,
            radius,
        ),
        i32::MIN <= center.x - radius && center.x + radius <= i32::MAX && i32::MIN <= center.z
            - radius && center.z + radius <= i32::MAX ==> desired_order(center, radius).len() == (
        2 * radius + 1) * (2 * radius + 1),
        desired_order(center, radius).no_duplicates(),
        forall|c: ChunkCoord|
            desired_order(center, radius).contains(c) <==> c.within(center, radius),
        forall|i: int, j: int|
            0 <= i < j < desired_order(center, radius).len() ==> {
                &&& no_later(
                    #[trigger] desired_order(center, radius)[i],
                    #[trigger] desired_order(center, radius)[j],
                    center,
                )
                &&& desired_order(center, radius)[i] != desired_order(center, radius)[j]
            },
{
    broadcast use vstd::seq_lib::group_to_multiset_ensures;
    broadcast use vstd::multiset::group_multiset_axioms;

    let s = row_major(center, radius);
    let d = desired_order(center, radius);
    let r = serve_order(center);
    lemma_row_major(center, radius);
    lemma_serve_order_total(center);
    s.lemma_sort_by_ensures(r);
    s.lemma_multiset_has_no_duplicates();
    d.lemma_multiset_has_no_duplicates_conv();
    assert(d.len() == s.len()) by {
        vstd::seq_lib::to_multiset_len(d);
        vstd::seq_lib::to_multiset_len(s);
    }
    assert forall|c: ChunkCoord| d.contains(c) <==> c.within(center, radius) by {
        assert(d.contains(c) <==> d.to_multiset().count(c) > 0);
        assert(s.contains(c) <==> s.to_multiset().count(c) > 0);
    }
    assert forall|i: int, j: int| 0 <= i < j < d.len() implies {
        &&& no_later(#[trigger] d[i], #[trigger] d[j], center)
        &&& d[i] != d[j]
    } by {
        assert(r(d[i], d[j]));
    }
}

/// Lists the chunks within Chebyshev distance `radius` of `center` row by
/// row.
fn enumerate_square(center: &ChunkCoord, radius: i32) -> (out: Vec<ChunkCoord>)
    requires
        radius >= 0,
    ensures
        out@ == row_major(*center, radius as int),
{
    let x_lo: i64 = if center.x as i64 - (radius as i64) < i32::MIN as i64 {
        i32::MIN as i64
    } else {
        center.x as i64 - radius as i64
    };
    let x_hi: i64 = if center.x as i64 + radius as i64 > i32::MAX as i64 {
        i32::MAX as i64
    } else {
        center.x as i64 + radius as i64
    };
    let z_lo: i64 = if center.z as i64 - (radius as i64) < i32::MIN as i64 {
        i32::MIN as i64
    } else {
        center.z as i64 - radius as i64
    };
    let z_hi: i64 = if center.z as i64 + radius as i64 > i32::MAX as i64 {
        i32::MAX as i64
    } else {
        center.z as i64 + radius as i64
    };
    let ghost w: int = span_len(center.x, radius as int);
    let ghost h: int = span_len(center.z, radius as int);
    let ghost target = row_major(*center, radius as int);
    let mut out: Vec<ChunkCoord> = Vec::new();
    let mut z: i64 = z_lo;
    while z <= z_hi
        invariant
            radius >= 0,
            x_lo == span_lo(center.x, radius as int),
            x_hi == span_hi(center.x, radius as int),
            z_lo == span_lo(center.z, radius as int),
            z_hi == span_hi(center.z, radius as int),
            w == x_hi - x_lo + 1,
            h == z_hi - z_lo + 1,
            w >= 1,
            target == row_major(*center, radius as int),
            z_lo <= z <= z_hi + 1,
            out@.len() == (z - z_lo) * w,
            forall|k: int| 0 <= k < out@.len() ==> out@[k] == #[trigger] target[k],
        decreases z_hi + 1 - z,
    {
        let mut x: i64 = x_lo;
        while x <= x_hi
            invariant
                radius >= 0,
                x_lo == span_lo(center.x, radius as int),
                x_hi == span_hi(center.x, radius as int),
                z_lo == span_lo(center.z, radius as int),
                z_hi == span_hi(center.z, radius as int),
                w == x_hi - x_lo + 1,
                h == z_hi - z_lo + 1,
                w >= 1,
                target == row_major(*center, radius as int),
                z_lo <= z <= z_hi,
                x_lo <= x <= x_hi + 1,
                out@.len() == (z - z_lo) * w + (x - x_lo),
                forall|k: int| 0 <= k < out@.len() ==> out@[k] == #[trigger] target[k],
            decreases x_hi + 1 - x,
        {
            let ghost k = out@.len() as int;
            proof {
                vstd::arithmetic::div_mod::lemma_fundamental_div_mod_converse(
                    k,
                    w,
                    z - z_lo,
                    x - x_lo,
                );
                assert((z - z_lo) * w + (x - x_lo) < h * w) by (nonlinear_arith)
                    requires
                        0 <= z - z_lo < h,
                        0 <= x - x_lo < w,
                ;
                assert(w * h == h * w) by (nonlinear_arith);
            }
            out.push(ChunkCoord { x: x as i32, z: z as i32 });
            assert(out@[k] == target[k]);
            x = x + 1;
        }
        proof {
            assert((z - z_lo) * w + w == (z + 1 - z_lo) * w) by (nonlinear_arith);
        }
        z = z + 1;
    }
    proof {
        assert(h * w == w * h) by (nonlinear_arith);
        assert(out@ =~= target);
    }
    out
}

/// Computes the chunks an observer in chunk `center` wants resident:
/// every chunk within Chebyshev distance `radius`, nearest first, and
/// among chunks equally far away by row and then by column. A negative
/// radius wants nothing.
pub fn desired_chunks(center: &ChunkCoord, radius: i32) -> (out: Vec<ChunkCoord>)
    ensures
        out@ == desired_order(*center, radius as int),
{
    if radius < 0 {
        Vec::new()
    } else {
        let square = enumerate_square(center, radius);
        sort_nearest_first(&square, center)
    }
}

} // verus!
