use vstd::prelude::*;
use vstd::arithmetic::div_mod::{lemma_mod_multiples_vanish, lemma_sub_mod_noop_right};
use crate::chance::{random_bool, random_range};
use crate::genome::{gene_max, gene_min, genes_valid, genome, is_mutation_of, lemma_mutation_in_bounds, lemma_newborn_valid, mutation,
    newborn_valid};
use crate::geometry::{attained, coord, bounding_box_of, center_of, is_bounding_box, DoubledPoint, Point, Segment};

verus! {

/// Largest number of segments a drawing may hold.
pub const MAX_SEGMENTS: usize = 1024;

/// Horizontal step of each of the eight directions; entry 8 is unused.
pub open spec fn dx_table(g: Seq<i32>) -> Seq<i32> {
    seq![(-g[2]) as i32, (-g[1]) as i32, 0i32, g[1], g[2], g[3], 0i32, (-g[3]) as i32, 0i32]
}

/// Vertical step of each of the eight directions; entry 8 is unused.
pub open spec fn dy_table(g: Seq<i32>) -> Seq<i32> {
    seq![g[6], g[5], g[4], g[5], g[6], g[7], g[8], g[7], 0i32]
}

/// The segment from `(x, y)` to `(nx, ny)` in the plane `z = 0`.
pub open spec fn flat_segment(x: int, y: int, nx: int, ny: int) -> Segment {
    Segment {
        start: Point { x: x as i32, y: y as i32, z: 0 },
        end: Point { x: nx as i32, y: ny as i32, z: 0 },
    }
}

/// The branching drawing grown from `(x, y)` with branch length `len` in
/// direction `dir`, in pre-order: the branch itself, then the subtree turned
/// one direction down, then the subtree turned one direction up.
#[verifier::opaque]
pub open spec fn tree_of(dx: Seq<i32>, dy: Seq<i32>, x: int, y: int, len: int, dir: int) -> Seq<
    Segment,
>
    decreases len,
{
    let d = dir % 8;
    let nx = x + len * dx[d];
    let ny = y + len * dy[d];
    let own = seq![flat_segment(x, y, nx, ny)];
    if len > 0 {
        own + tree_of(dx, dy, nx, ny, len - 1, dir - 1) + tree_of(dx, dy, nx, ny, len - 1, dir + 1)
    } else {
        own
    }
}

/// The drawing of a genome: grown from the origin, facing direction 2, with
/// the order gene as the first branch length.
pub open spec fn expansion(g: Seq<i32>) -> Seq<Segment> {
    tree_of(dx_table(g), dy_table(g), 0, 0, g[8] as int, 2)
}

/// Steps of at most 9 in every direction.
pub open spec fn small_steps(t: Seq<i32>) -> bool {
    &&& t.len() == 9
    &&& forall|d: int| 0 <= d < 9 ==> -9 <= #[trigger] t[d] <= 9
}

/// Two to the power `n`.
pub open spec fn pow2(n: nat) -> nat
    decreases n,
{
    if n == 0 {
        1
    } else {
        2 * pow2((n - 1) as nat)
    }
}

/// A tree of branch length `len` holds `2^(len+1) - 1` segments.
pub proof fn lemma_tree_len(dx: Seq<i32>, dy: Seq<i32>, x: int, y: int, len: int, dir: int)
    requires
        len >= 0,
    ensures
        tree_of(dx, dy, x, y, len, dir).len() == pow2((len + 1) as nat) - 1,
    decreases len,
{
    reveal(tree_of);
    let d = dir % 8;
    let nx = x + len * dx[d];
    let ny = y + len * dy[d];
    if len > 0 {
        lemma_tree_len(dx, dy, nx, ny, len - 1, dir - 1);
        lemma_tree_len(dx, dy, nx, ny, len - 1, dir + 1);
        assert(pow2((len + 1) as nat) == 2 * pow2(len as nat));
    } else {
        assert(pow2(1) == 2 * pow2(0));
    }
}

/// The drawing of a genome holds `2^(order+1) - 1` segments, where the
/// order is gene 8.
pub proof fn lemma_segment_count(g: Seq<i32>)
    requires
        g.len() == 9,
        g[8] >= 0,
    ensures
        expansion(g).len() == pow2((g[8] + 1) as nat) - 1,
{
    lemma_tree_len(dx_table(g), dy_table(g), 0, 0, g[8] as int, 2);
}

/// Expansion depends on the genes alone: two organisms with the same genes,
/// each drawn, hold the same segments in the same order.
pub proof fn lemma_expansion_deterministic(a: Biomorph, b: Biomorph)
    requires
        a.genes == b.genes,
        a.segment_list@ == expansion(a.genes@),
        b.segment_list@ == expansion(b.genes@),
    ensures
        a.segment_list@ == b.segment_list@,
{
}

/// The direction tables are mirror images: direction `d` and direction
/// `4 - d` step by opposite amounts across and by the same amount up.
pub proof fn lemma_tables_mirror(g: Seq<i32>)
    requires
        g.len() == 9,
        g[1] != i32::MIN,
        g[2] != i32::MIN,
        g[3] != i32::MIN,
    ensures
        forall|d: int|
            0 <= d < 8 ==> dx_table(g)[(4 - d) % 8] == -dx_table(g)[d] && dy_table(g)[(4 - d) % 8]
                == #[trigger] dy_table(g)[d],
{
    assert forall|d: int| 0 <= d < 8 implies dx_table(g)[(4 - d) % 8] == -dx_table(g)[d]
        && dy_table(g)[(4 - d) % 8] == #[trigger] dy_table(g)[d] by {
        if d == 0 { assert((4 - d) % 8 == 4); }
        else if d == 1 { assert((4 - d) % 8 == 3); }
        else if d == 2 { assert((4 - d) % 8 == 2); }
        else if d == 3 { assert((4 - d) % 8 == 1); }
        else if d == 4 { assert((4 - d) % 8 == 0); }
        else if d == 5 { assert((4 - d) % 8 == 7); }
        else if d == 6 { assert((4 - d) % 8 == 6); }
        else { assert((4 - d) % 8 == 5); }
    }
}

/// Gene 0 takes no part in the drawing: genomes that agree on genes 1 to 8
/// have the same tables, the same order and the same expansion.
pub proof fn lemma_gene_zero_unused(g1: Seq<i32>, g2: Seq<i32>)
    requires
        g1.len() == 9,
        g2.len() == 9,
        forall|i: int| 1 <= i < 9 ==> g1[i] == g2[i],
    ensures
        dx_table(g1) == dx_table(g2),
        dy_table(g1) == dy_table(g2),
        g1[8] == g2[8],
        expansion(g1) == expansion(g2),
{
    assert(g1[1] == g2[1] && g1[2] == g2[2] && g1[3] == g2[3] && g1[4] == g2[4]);
    assert(g1[5] == g2[5] && g1[6] == g2[6] && g1[7] == g2[7] && g1[8] == g2[8]);
    assert(dx_table(g1) =~= dx_table(g2));
    assert(dy_table(g1) =~= dy_table(g2));
}

/// How far, in each coordinate, a tree of branch length `len` reaches from
/// its starting point when no step exceeds 9.
pub open spec fn reach(len: int) -> int
    decreases len,
{
    if len <= 0 {
        -9 * len
    } else {
        9 * len + reach(len - 1)
    }
}

proof fn lemma_reach_step(len: int)
    requires
        -9 <= len <= 9,
    ensures
        reach(len) >= 9 * len,
        reach(len) >= -9 * len,
        len > 0 ==> reach(len) == 9 * len + reach(len - 1),
        reach(len) >= 0,
    decreases len + 9,
{
    if len > 0 {
        lemma_reach_step(len - 1);
    }
}

/// For a branch length `len >= 0` the reach is `9 * len * (len + 1) / 2`.
pub proof fn lemma_reach_closed(len: int)
    requires
        len >= 0,
    ensures
        2 * reach(len) == 9 * len * (len + 1),
    decreases len,
{
    if len > 0 {
        lemma_reach_closed(len - 1);
        assert(9 * len * (len + 1) == 9 * (len - 1) * len + 18 * len) by (nonlinear_arith);
    }
}

/// `p` lies in the plane `z = 0`, within `r` of `(x, y)` in each coordinate.
pub open spec fn near(p: Point, x: int, y: int, r: int) -> bool {
    &&& x - r <= p.x <= x + r
    &&& y - r <= p.y <= y + r
    &&& p.z == 0
}

/// Every endpoint of a tree lies within its reach of the starting point:
/// for `len >= 0`, within `9 * len * (len + 1) / 2` in each coordinate.
pub proof fn lemma_tree_reach(dx: Seq<i32>, dy: Seq<i32>, x: int, y: int, len: int, dir: int)
    requires
        small_steps(dx),
        small_steps(dy),
        -9 <= len <= 9,
        reach(len) - i32::MAX <= x <= i32::MAX - reach(len),
        reach(len) - i32::MAX <= y <= i32::MAX - reach(len),
    ensures
        forall|k: int|
            0 <= k < tree_of(dx, dy, x, y, len, dir).len() ==> near(
                #[trigger] tree_of(dx, dy, x, y, len, dir)[k].start,
                x,
                y,
                reach(len),
            ) && near(tree_of(dx, dy, x, y, len, dir)[k].end, x, y, reach(len)),
    decreases len + 9,
{
    reveal(tree_of);
    let d = dir % 8;
    lemma_reach_step(len);
    assert(-9 * len <= len * dx[d] <= 9 * len || 9 * len <= len * dx[d] <= -9 * len)
        by (nonlinear_arith)
        requires
            -9 <= len <= 9,
            -9 <= dx[d] <= 9,
    ;
    assert(-9 * len <= len * dy[d] <= 9 * len || 9 * len <= len * dy[d] <= -9 * len)
        by (nonlinear_arith)
        requires
            -9 <= len <= 9,
            -9 <= dy[d] <= 9,
    ;
    let nx = x + len * dx[d];
    let ny = y + len * dy[d];
    let t = tree_of(dx, dy, x, y, len, dir);
    if len > 0 {
        let t1 = tree_of(dx, dy, nx, ny, len - 1, dir - 1);
        let t2 = tree_of(dx, dy, nx, ny, len - 1, dir + 1);
        lemma_tree_reach(dx, dy, nx, ny, len - 1, dir - 1);
        lemma_tree_reach(dx, dy, nx, ny, len - 1, dir + 1);
        assert(t == seq![flat_segment(x, y, nx, ny)] + t1 + t2);
        assert forall|k: int| 0 <= k < t.len() implies near(#[trigger] t[k].start, x, y, reach(len))
            && near(t[k].end, x, y, reach(len)) by {
            if k == 0 {
            } else if k < 1 + t1.len() {
                assert(t[k] == t1[k - 1]);
                assert(near(t1[k - 1].start, nx, ny, reach(len - 1)));
            } else {
                assert(t[k] == t2[k - 1 - t1.len()]);
                assert(near(t2[k - 1 - t1.len()].start, nx, ny, reach(len - 1)));
            }
        }
    }
}

/// The reflection of a point across the y axis.
pub open spec fn mirror(p: Point) -> Point {
    Point { x: (-p.x) as i32, y: p.y, z: p.z }
}

/// `p` is an endpoint of one of the segments.
pub open spec fn has_endpoint(segs: Seq<Segment>, p: Point) -> bool {
    exists|k: int| 0 <= k < segs.len() && (#[trigger] segs[k].start == p || segs[k].end == p)
}

/// Direction `d` and direction `4 - d` step in mirror image.
pub open spec fn mirrored_tables(dx: Seq<i32>, dy: Seq<i32>) -> bool {
    &&& dx[4] == -dx[0] && dx[3] == -dx[1] && dx[2] == 0 && dx[6] == 0 && dx[7] == -dx[5]
    &&& dy[4] == dy[0] && dy[3] == dy[1] && dy[7] == dy[5]
}

/// The first step of a tree grown in the mirrored direction is the
/// reflection of the first step of the tree.
proof fn lemma_mirror_step(dx: Seq<i32>, dy: Seq<i32>, x: int, len: int, dir: int)
    requires
        small_steps(dx),
        small_steps(dy),
        mirrored_tables(dx, dy),
    ensures
        -x + len * dx[(4 - dir) % 8] == -(x + len * dx[dir % 8]),
        dy[(4 - dir) % 8] == dy[dir % 8],
{
    let d = dir % 8;
    lemma_sub_mod_noop_right(4, dir, 8);
    assert(0 <= d < 8);
    if d == 0 { assert((4 - d) % 8 == 4); }
    else if d == 1 { assert((4 - d) % 8 == 3); }
    else if d == 2 { assert((4 - d) % 8 == 2); }
    else if d == 3 { assert((4 - d) % 8 == 1); }
    else if d == 4 { assert((4 - d) % 8 == 0); }
    else if d == 5 { assert((4 - d) % 8 == 7); }
    else if d == 6 { assert((4 - d) % 8 == 6); }
    else { assert((4 - d) % 8 == 5); }
    assert(dx[(4 - d) % 8] == -dx[d]);
    assert(dy[(4 - d) % 8] == dy[d]);
    let e = dx[(4 - dir) % 8];
    assert(-x + len * e == -(x + len * dx[d])) by (nonlinear_arith)
        requires
            e == -dx[d],
    ;
}

/// The reflection of an endpoint of a segment is an endpoint of the
/// reflected segment.
proof fn lemma_mirror_own(x: int, y: int, nx: int, ny: int, p: Point)
    requires
        -i32::MAX <= x <= i32::MAX,
        -i32::MAX <= nx <= i32::MAX,
        i32::MIN <= y <= i32::MAX,
        i32::MIN <= ny <= i32::MAX,
        flat_segment(x, y, nx, ny).start == p || flat_segment(x, y, nx, ny).end == p,
    ensures
        flat_segment(-x, y, -nx, ny).start == mirror(p) || flat_segment(-x, y, -nx, ny).end
            == mirror(p),
{
    if flat_segment(x, y, nx, ny).start == p {
        assert(p.x == x);
        assert(flat_segment(-x, y, -nx, ny).start == mirror(p));
    } else {
        assert(p.x == nx);
        assert(flat_segment(-x, y, -nx, ny).end == mirror(p));
    }
}

/// The end of a tree's own segment stays within the reach left for its
/// subtrees.
proof fn lemma_step_bounds(dx: Seq<i32>, dy: Seq<i32>, x: int, y: int, len: int, dir: int)
    requires
        small_steps(dx),
        small_steps(dy),
        -9 <= len <= 9,
        reach(len) - i32::MAX <= x <= i32::MAX - reach(len),
        reach(len) - i32::MAX <= y <= i32::MAX - reach(len),
    ensures
        -i32::MAX <= x + len * dx[dir % 8] <= i32::MAX,
        -i32::MAX <= y + len * dy[dir % 8] <= i32::MAX,
        len > 0 ==> reach(len - 1) - i32::MAX <= x + len * dx[dir % 8] <= i32::MAX - reach(len - 1),
        len > 0 ==> reach(len - 1) - i32::MAX <= y + len * dy[dir % 8] <= i32::MAX - reach(len - 1),
{
    let d = dir % 8;
    lemma_reach_step(len);
    assert(-9 * len <= len * dx[d] <= 9 * len || 9 * len <= len * dx[d] <= -9 * len)
        by (nonlinear_arith)
        requires
            -9 <= len <= 9,
            -9 <= dx[d] <= 9,
    ;
    assert(-9 * len <= len * dy[d] <= 9 * len || 9 * len <= len * dy[d] <= -9 * len)
        by (nonlinear_arith)
        requires
            -9 <= len <= 9,
            -9 <= dy[d] <= 9,
    ;
}

/// A tree is its own segment followed by its two subtrees.
proof fn lemma_tree_unfold(dx: Seq<i32>, dy: Seq<i32>, x: int, y: int, len: int, dir: int)
    requires
        len > 0,
    ensures
        tree_of(dx, dy, x, y, len, dir) == seq![
            flat_segment(x, y, x + len * dx[dir % 8], y + len * dy[dir % 8]),
        ] + tree_of(dx, dy, x + len * dx[dir % 8], y + len * dy[dir % 8], len - 1, dir - 1)
            + tree_of(dx, dy, x + len * dx[dir % 8], y + len * dy[dir % 8], len - 1, dir + 1),
{
    reveal(tree_of);
}

/// A tree begins with its own segment; with a length of zero or less it
/// holds nothing else.
proof fn lemma_tree_first(dx: Seq<i32>, dy: Seq<i32>, x: int, y: int, len: int, dir: int)
    ensures
        tree_of(dx, dy, x, y, len, dir).len() >= 1,
        tree_of(dx, dy, x, y, len, dir)[0] == flat_segment(
            x,
            y,
            x + len * dx[dir % 8],
            y + len * dy[dir % 8],
        ),
        len <= 0 ==> tree_of(dx, dy, x, y, len, dir).len() == 1,
{
    reveal(tree_of);
}

/// With mirrored tables, the reflection of an endpoint of a tree is an
/// endpoint of the reflected tree, grown in the mirrored direction.
#[verifier::rlimit(100)]
#[verifier::spinoff_prover]
proof fn lemma_tree_mirror(dx: Seq<i32>, dy: Seq<i32>, x: int, y: int, len: int, dir: int, p: Point)
    requires
        small_steps(dx),
        small_steps(dy),
        mirrored_tables(dx, dy),
        -9 <= len <= 9,
        reach(len) - i32::MAX <= x <= i32::MAX - reach(len),
        reach(len) - i32::MAX <= y <= i32::MAX - reach(len),
        has_endpoint(tree_of(dx, dy, x, y, len, dir), p),
    ensures
        has_endpoint(tree_of(dx, dy, -x, y, len, 4 - dir), mirror(p)),
    decreases len + 9,
{
    let d = dir % 8;
    lemma_mirror_step(dx, dy, x, len, dir);
    lemma_step_bounds(dx, dy, x, y, len, dir);
    let nx = x + len * dx[d];
    let ny = y + len * dy[d];
    let t = tree_of(dx, dy, x, y, len, dir);
    let m = tree_of(dx, dy, -x, y, len, 4 - dir);
    let own = flat_segment(x, y, nx, ny);
    let mown = flat_segment(-x, y, -nx, ny);
    lemma_reach_step(len);
    if len <= 0 {
        lemma_tree_first(dx, dy, x, y, len, dir);
        lemma_tree_first(dx, dy, -x, y, len, 4 - dir);
        let e: Seq<Segment> = Seq::empty();
        assert(t =~= seq![own] + e + e);
        assert(m =~= seq![mown] + e + e);
        lemma_endpoint_split(seq![own], e, e, p);
        assert(seq![own][0] == own);
        lemma_mirror_own(x, y, nx, ny, p);
        lemma_endpoint_join(seq![mown], e, e, mirror(p));
    } else {
        let t1 = tree_of(dx, dy, nx, ny, len - 1, dir - 1);
        let t2 = tree_of(dx, dy, nx, ny, len - 1, dir + 1);
        let m1 = tree_of(dx, dy, -nx, ny, len - 1, 4 - dir - 1);
        let m2 = tree_of(dx, dy, -nx, ny, len - 1, 4 - dir + 1);
        lemma_tree_unfold(dx, dy, x, y, len, dir);
        lemma_tree_unfold(dx, dy, -x, y, len, 4 - dir);
        assert(t == seq![own] + t1 + t2);
        assert(m == seq![mown] + m1 + m2);
        lemma_endpoint_split(seq![own], t1, t2, p);
        if has_endpoint(seq![own], p) {
            assert(own.start == p || own.end == p);
            lemma_mirror_own(x, y, nx, ny, p);
            assert(seq![mown][0] == mown);
        } else if has_endpoint(t1, p) {
            lemma_tree_mirror(dx, dy, nx, ny, len - 1, dir - 1, p);
            assert(4 - (dir - 1) == 4 - dir + 1);
        } else {
            lemma_tree_mirror(dx, dy, nx, ny, len - 1, dir + 1, p);
            assert(4 - (dir + 1) == 4 - dir - 1);
        }
        lemma_endpoint_join(seq![mown], m1, m2, mirror(p));
    }
}

/// An endpoint of a concatenation is an endpoint of one of its parts.
proof fn lemma_endpoint_split(a: Seq<Segment>, b: Seq<Segment>, c: Seq<Segment>, p: Point)
    requires
        has_endpoint(a + b + c, p),
    ensures
        has_endpoint(a, p) || has_endpoint(b, p) || has_endpoint(c, p),
{
    let s = a + b + c;
    let k = choose|k: int| 0 <= k < s.len() && (#[trigger] s[k].start == p || s[k].end == p);
    if k < a.len() {
        assert(s[k] == a[k]);
    } else if k < a.len() + b.len() {
        assert(s[k] == b[k - a.len()]);
    } else {
        assert(s[k] == c[k - a.len() - b.len()]);
    }
}

/// An endpoint of a part, or the first segment, is an endpoint of the
/// concatenation.
proof fn lemma_endpoint_join(a: Seq<Segment>, b: Seq<Segment>, c: Seq<Segment>, p: Point)
    requires
        a.len() == 1,
        a[0].start == p || a[0].end == p || has_endpoint(b, p) || has_endpoint(c, p),
    ensures
        has_endpoint(a + b + c, p),
{
    let s = a + b + c;
    if a[0].start == p || a[0].end == p {
        assert(s[0] == a[0]);
    } else if has_endpoint(b, p) {
        let k = choose|k: int| 0 <= k < b.len() && (#[trigger] b[k].start == p || b[k].end == p);
        assert(s[1 + k] == b[k]);
    } else {
        let k = choose|k: int| 0 <= k < c.len() && (#[trigger] c[k].start == p || c[k].end == p);
        assert(s[1 + b.len() + k] == c[k]);
    }
}

/// A drawing is symmetric about the y axis: its bounding box spans from
/// `-w` to `w` across, so its center lies on the y axis.
#[verifier::rlimit(50)]
pub proof fn lemma_drawing_symmetric(g: Seq<i32>, lo: Point, hi: Point)
    requires
        drawable(g),
        is_bounding_box(expansion(g), lo, hi),
    ensures
        lo.x == -hi.x,
        lo.x + hi.x == 0,
{
    let dx = dx_table(g);
    let dy = dy_table(g);
    let t = expansion(g);
    let len = g[8] as int;
    assert(small_steps(dx) && small_steps(dy));
    lemma_tables_mirror(g);
    assert(mirrored_tables(dx, dy));
    lemma_reach_closed(len);
    assert(2 * reach(len) <= 9 * 90) by (nonlinear_arith)
        requires
            2 * reach(len) == 9 * len * (len + 1),
            0 <= len <= 9,
    ;
    lemma_tree_reach(dx, dy, 0, 0, len, 2);
    assert(attained(t, t.len() as int, 0, coord(lo, 0)) && attained(t, t.len() as int, 0, coord(hi, 0)));
    let kh = choose|k: int| 0 <= k < t.len() && (coord(#[trigger] t[k].start, 0) == coord(hi, 0) || coord(t[k].end, 0) == coord(hi, 0));
    let kl = choose|k: int| 0 <= k < t.len() && (coord(#[trigger] t[k].start, 0) == coord(lo, 0) || coord(t[k].end, 0) == coord(lo, 0));
    let ph = if coord(t[kh].start, 0) == coord(hi, 0) { t[kh].start } else { t[kh].end };
    let pl = if coord(t[kl].start, 0) == coord(lo, 0) { t[kl].start } else { t[kl].end };
    assert(near(t[kh].start, 0, 0, reach(len)) && near(t[kh].end, 0, 0, reach(len)));
    assert(near(t[kl].start, 0, 0, reach(len)) && near(t[kl].end, 0, 0, reach(len)));
    assert(has_endpoint(t, ph));
    assert(has_endpoint(t, pl));
    assert(-0 == 0int && 4 - 2 == 2int);
    lemma_tree_mirror(dx, dy, 0, 0, len, 2, ph);
    lemma_tree_mirror(dx, dy, 0, 0, len, 2, pl);
    let jh = choose|j: int| 0 <= j < t.len() && (#[trigger] t[j].start == mirror(ph) || t[j].end == mirror(ph));
    let jl = choose|j: int| 0 <= j < t.len() && (#[trigger] t[j].start == mirror(pl) || t[j].end == mirror(pl));
    assert(coord(lo, 0) <= coord(t[jh].start, 0) && coord(lo, 0) <= coord(t[jh].end, 0));
    assert(coord(hi, 0) >= coord(t[jl].start, 0) && coord(hi, 0) >= coord(t[jl].end, 0));
}

/// Genes that can be drawn: an order in `0..=9` and steps of at most 9.
pub open spec fn drawable(g: Seq<i32>) -> bool {
    &&& g.len() == 9
    &&& 0 <= g[8] <= 9
    &&& forall|i: int| 1 <= i < 8 ==> -9 <= #[trigger] g[i] <= 9
}

/// Whether the genes can be drawn.
pub fn can_draw(genes: &[i32; 9]) -> (r: bool)
    ensures
        r == drawable(genes@),
{
    if genes[8] < 0 || genes[8] > 9 {
        return false;
    }
    let mut i: usize = 1;
    while i < 8
        invariant
            1 <= i <= 8,
            0 <= genes@[8] <= 9,
            forall|j: int| 1 <= j < i ==> -9 <= #[trigger] genes@[j] <= 9,
        decreases 8 - i,
    {
        if genes[i] < -9 || genes[i] > 9 {
            return false;
        }
        i = i + 1;
    }
    true
}

/// A genome in the genome table can be drawn.
pub proof fn lemma_valid_drawable(g: Seq<i32>)
    requires
        genes_valid(g),
    ensures
        drawable(g),
{
    assert(gene_min(8) <= g[8] <= gene_max(8));
    assert forall|i: int| 1 <= i < 8 implies -9 <= #[trigger] g[i] <= 9 by {
        assert(gene_min(i) <= g[i] <= gene_max(i));
    }
}

/// An order of at most 9 keeps a drawing within `MAX_SEGMENTS`.
proof fn lemma_order_capacity(order: int)
    requires
        0 <= order <= 9,
    ensures
        pow2((order + 1) as nat) <= MAX_SEGMENTS,
{
    reveal_with_fuel(pow2, 11);
}

/// An organism: nine genes and the drawing they grow into.
#[derive(Clone, Debug)]
pub struct Biomorph {
    pub genes: [i32; 9],
    pub segment_list: Vec<Segment>,
}

impl Biomorph {
    /// An organism with the given genes and no drawing yet.
    pub fn new(genes: [i32; 9]) -> (b: Biomorph)
        ensures
            b.genes == genes,
            b.segment_list@.len() == 0,
    {
        Biomorph { genes, segment_list: Vec::with_capacity(MAX_SEGMENTS) }
    }

    /// A random newborn: genes 0 to 7 drawn uniformly from their interval,
    /// the order gene from the top four values of its own; no drawing yet.
    pub fn initial() -> (b: Biomorph)
        ensures
            newborn_valid(b.genes@),
            b.segment_list@.len() == 0,
    {
        let table = genome();
        let mut genes: [i32; 9] = [0; 9];
        let mut i: usize = 0;
        while i < 8
            invariant
                0 <= i <= 8,
                forall|j: int| 0 <= j < 9 ==> table[j].0 == gene_min(j) && table[j].1 == gene_max(j),
                forall|j: int| 0 <= j < i ==> -9 <= #[trigger] genes@[j] <= 9,
            decreases 8 - i,
        {
            assert(table[i as int].0 == gene_min(i as int) && table[i as int].1 == gene_max(i as int));
            genes[i] = random_range(table[i].0, table[i].1 + 1);
            i = i + 1;
        }
        assert(table[7].1 == gene_max(7));
        genes[8] = random_range(table[7].1 - 3, table[7].1 + 1);
        Biomorph::new(genes)
    }

    /// The offspring with gene `index` stepped up (`up`) or down, clamped
    /// one inside its interval; every other gene is kept and the drawing is
    /// left empty.
    pub fn mutate(&self, index: usize, up: bool) -> (b: Biomorph)
        requires
            index < 9,
        ensures
            b.genes@ == mutation(self.genes@, index as int, up),
            b.segment_list@.len() == 0,
    {
        let table = genome();
        let mut genes = self.genes;
        let v: i64 = genes[index] as i64 + if up { 1i64 } else { -1i64 };
        let (lo, hi) = table[index];
        let w: i64 = if v < lo as i64 {
            lo as i64 + 1
        } else if v > hi as i64 {
            hi as i64 - 1
        } else {
            v
        };
        genes[index] = w as i32;
        assert(genes@ =~= mutation(self.genes@, index as int, up));
        Biomorph::new(genes)
    }

    /// A random offspring: one gene, chosen uniformly, moves one step up or
    /// down with equal chance, clamped one inside its interval.
    pub fn reproduce(&self) -> (b: Biomorph)
        ensures
            is_mutation_of(self.genes@, b.genes@),
            b.segment_list@.len() == 0,
    {
        let index = random_range(0, 9) as usize;
        let up = random_bool();
        let b = self.mutate(index, up);
        assert(0 <= index as int && index < 9 && b.genes@ == mutation(self.genes@, index as int, up));
        b
    }

    /// The smallest box holding every endpoint of the drawing, or `None`
    /// when the drawing is empty.
    pub fn bounding_box(&self) -> (r: Option<(Point, Point)>)
        ensures
            r is None <==> self.segment_list@.len() == 0,
            r matches Some((lo, hi)) ==> is_bounding_box(self.segment_list@, lo, hi),
    {
        bounding_box_of(&self.segment_list)
    }

    /// The center of the drawing's bounding box, at twice its coordinates
    /// (the sum of the box's corners), or `None` when the drawing is empty.
    pub fn center(&self) -> (r: Option<DoubledPoint>)
        ensures
            r is None <==> self.segment_list@.len() == 0,
            r matches Some(m) ==> exists|lo: Point, hi: Point|
                #![trigger is_bounding_box(self.segment_list@, lo, hi)]
                is_bounding_box(self.segment_list@, lo, hi) && m.x == lo.x + hi.x && m.y == lo.y
                    + hi.y && m.z == lo.z + hi.z,
    {
        center_of(&self.segment_list)
    }

    /// The direction tables of a genome and its order gene.
    pub fn plugin(genes: [i32; 9]) -> (r: (i32, [i32; 9], [i32; 9]))
        requires
            genes[1] != i32::MIN,
            genes[2] != i32::MIN,
            genes[3] != i32::MIN,
        ensures
            r.0 == genes[8],
            r.1@ == dx_table(genes@),
            r.2@ == dy_table(genes@),
    {
        let order = genes[8];
        let mut dx: [i32; 9] = [0; 9];
        let mut dy: [i32; 9] = [0; 9];
        dx[3] = genes[1];
        dx[4] = genes[2];
        dx[5] = genes[3];
        dx[1] = -dx[3];
        dx[0] = -dx[4];
        dx[2] = 0;
        dx[6] = 0;
        dx[7] = -dx[5];
        dy[2] = genes[4];
        dy[3] = genes[5];
        dy[4] = genes[6];
        dy[5] = genes[7];
        dy[6] = genes[8];
        dy[0] = dy[4];
        dy[1] = dy[3];
        dy[7] = dy[5];
        assert(dx@ =~= dx_table(genes@));
        assert(dy@ =~= dy_table(genes@));
        (order, dx, dy)
    }

    /// Appends the tree grown from `(x, y)` with branch length `length` in
    /// direction `dir`; a length of zero or less gives one segment.
    fn tree(&mut self, x: i32, y: i32, length: i32, dir: i32, dx: &[i32; 9], dy: &[i32; 9])
        requires
            small_steps(dx@),
            small_steps(dy@),
            -9 <= length <= 9,
            reach(length as int) - i32::MAX <= x <= i32::MAX - reach(length as int),
            reach(length as int) - i32::MAX <= y <= i32::MAX - reach(length as int),
            length <= 0 || (i32::MIN + length <= dir && dir <= i32::MAX - length),
        ensures
            final(self).genes == old(self).genes,
            final(self).segment_list@ == old(self).segment_list@ + tree_of(
                dx@,
                dy@,
                x as int,
                y as int,
                length as int,
                dir as int,
            ),
        decreases length,
    {
        let shifted: i64 = dir as i64 + 2147483648i64;
        let d: usize = (shifted % 8) as usize;
        proof {
            lemma_mod_multiples_vanish(268435456, dir as int, 8);
            assert(8 * 268435456 + dir as int == shifted as int);
            lemma_reach_step(length as int);
        }
        assert(d as int == (dir as int) % 8);
        assert(-9 * length <= length * dx[d as int] <= 9 * length || 9 * length <= length
            * dx[d as int] <= -9 * length) by (nonlinear_arith)
            requires
                -9 <= length <= 9,
                -9 <= dx[d as int] <= 9,
        ;
        assert(-9 * length <= length * dy[d as int] <= 9 * length || 9 * length <= length
            * dy[d as int] <= -9 * length) by (nonlinear_arith)
            requires
                -9 <= length <= 9,
                -9 <= dy[d as int] <= 9,
        ;
        let new_x = x + length * dx[d];
        let new_y = y + length * dy[d];
        self.segment_list.push(
            Segment {
                start: Point { x, y, z: 0 },
                end: Point { x: new_x, y: new_y, z: 0 },
            },
        );
        proof {
            reveal(tree_of);
        }
        if length > 0 {
            self.tree(new_x, new_y, length - 1, dir - 1, dx, dy);
            self.tree(new_x, new_y, length - 1, dir + 1, dx, dy);
            assert(self.segment_list@ =~= old(self).segment_list@ + tree_of(
                dx@,
                dy@,
                x as int,
                y as int,
                length as int,
                dir as int,
            ));
        } else {
            assert(self.segment_list@ =~= old(self).segment_list@ + tree_of(
                dx@,
                dy@,
                x as int,
                y as int,
                length as int,
                dir as int,
            ));
        }
    }

    /// Rebuilds the drawing from the genes, from the origin facing direction
    /// 2. A genome that cannot be drawn (an order outside `0..=9`, whose
    /// drawing would pass `MAX_SEGMENTS`, or a step gene beyond 9 in size) is
    /// refused before any segment is grown: the drawing is then left empty
    /// and `false` returned.
    pub fn develop(&mut self) -> (ok: bool)
        ensures
            final(self).genes == old(self).genes,
            ok == drawable(old(self).genes@),
            ok ==> final(self).segment_list@ == expansion(old(self).genes@),
            ok ==> final(self).segment_list@.len() == pow2((old(self).genes[8] + 1) as nat) - 1,
            final(self).segment_list@.len() <= MAX_SEGMENTS,
            !ok ==> final(self).segment_list@.len() == 0,
    {
        self.segment_list = Vec::with_capacity(MAX_SEGMENTS);
        if !can_draw(&self.genes) {
            return false;
        }
        let (order, dx, dy) = Biomorph::plugin(self.genes);
        proof {
            lemma_tree_len(dx@, dy@, 0, 0, order as int, 2);
            lemma_order_capacity(order as int);
            lemma_reach_closed(order as int);
            assert(2 * reach(order as int) <= 9 * 90) by (nonlinear_arith)
                requires
                    2 * reach(order as int) == 9 * order * (order + 1),
                    0 <= order <= 9,
            ;
        }
        self.tree(0, 0, order, 2, &dx, &dy);
        assert(self.segment_list@ =~= expansion(self.genes@));
        true
    }
}

/// The size of the grid of organisms.
pub struct Config {
    pub columns: usize,
    pub rows: usize,
}

impl Default for Config {
    fn default() -> (c: Config)
        ensures
            c.columns == 3 && c.rows == 3,
    {
        Config { columns: 3, rows: 3 }
    }
}

impl Config {
    /// A grid of three columns and three rows.
    pub fn default() -> (c: Config)
        ensures
            c.columns == 3 && c.rows == 3,
    {
        Config { columns: 3, rows: 3 }
    }
}

/// The population: the organisms of the grid, row by row.
pub struct Matrix {
    pub biomorphs: Vec<Biomorph>,
}

impl Matrix {
    /// Every organism's genes lie in the genome table.
    pub open spec fn wf(&self) -> bool {
        forall|i: int| 0 <= i < self.biomorphs@.len() ==> genes_valid(#[trigger] self.biomorphs@[i].genes@)
    }

    /// Every organism's drawing is the expansion of its genes.
    pub open spec fn developed(&self) -> bool {
        forall|i: int|
            0 <= i < self.biomorphs@.len() ==> #[trigger] self.biomorphs@[i].segment_list@
                == expansion(self.biomorphs@[i].genes@)
    }

    /// A fresh population of `columns * rows` random newborns, none drawn yet.
    pub fn initial_setup(config: &Config) -> (m: Matrix)
        requires
            config.columns >= 1,
            config.rows >= 1,
            config.columns * config.rows <= usize::MAX,
        ensures
            m.biomorphs@.len() == config.columns * config.rows,
            m.wf(),
            forall|i: int| 0 <= i < m.biomorphs@.len() ==> newborn_valid(#[trigger] m.biomorphs@[i].genes@),
            forall|i: int| 0 <= i < m.biomorphs@.len() ==> (#[trigger] m.biomorphs@[i]).segment_list@.len() == 0,
    {
        let n = config.columns * config.rows;
        let mut biomorphs: Vec<Biomorph> = Vec::with_capacity(n);
        let mut i: usize = 0;
        while i < n
            invariant
                0 <= i <= n,
                biomorphs@.len() == i,
                forall|j: int| 0 <= j < i ==> newborn_valid(#[trigger] biomorphs@[j].genes@),
                forall|j: int| 0 <= j < i ==> (#[trigger] biomorphs@[j]).segment_list@.len() == 0,
            decreases n - i,
        {
            biomorphs.push(Biomorph::initial());
            i = i + 1;
        }
        assert forall|j: int| 0 <= j < biomorphs@.len() implies genes_valid(
            #[trigger] biomorphs@[j].genes@,
        ) by {
            lemma_newborn_valid(biomorphs@[j].genes@);
        }
        Matrix { biomorphs }
    }

    /// A fresh population of `columns * rows` random newborns, each drawn.
    pub fn generate(config: &Config) -> (m: Matrix)
        requires
            config.columns >= 1,
            config.rows >= 1,
            config.columns * config.rows <= usize::MAX,
        ensures
            m.biomorphs@.len() == config.columns * config.rows,
            m.wf(),
            m.developed(),
            forall|i: int| 0 <= i < m.biomorphs@.len() ==> newborn_valid(#[trigger] m.biomorphs@[i].genes@),
    {
        let mut m = Matrix::initial_setup(config);
        let n = m.biomorphs.len();
        let mut i: usize = 0;
        while i < n
            invariant
                0 <= i <= n,
                n == m.biomorphs@.len(),
                n == config.columns * config.rows,
                m.wf(),
                forall|j: int| 0 <= j < n ==> newborn_valid(#[trigger] m.biomorphs@[j].genes@),
                forall|j: int|
                    0 <= j < i ==> #[trigger] m.biomorphs@[j].segment_list@ == expansion(
                        m.biomorphs@[j].genes@,
                    ),
            decreases n - i,
        {
            proof {
                lemma_valid_drawable(m.biomorphs@[i as int].genes@);
            }
            m.develop(i);
            i = i + 1;
        }
        m
    }

    /// Draws the organism at `biomorph_index` from its genes; a genome that
    /// cannot be drawn leaves that organism's drawing empty.
    pub fn develop(&mut self, biomorph_index: usize)
        requires
            biomorph_index < old(self).biomorphs@.len(),
        ensures
            final(self).biomorphs@.len() == old(self).biomorphs@.len(),
            final(self).biomorphs@[biomorph_index as int].genes
                == old(self).biomorphs@[biomorph_index as int].genes,
            drawable(old(self).biomorphs@[biomorph_index as int].genes@)
                ==> final(self).biomorphs@[biomorph_index as int].segment_list@
                == expansion(old(self).biomorphs@[biomorph_index as int].genes@),
            !drawable(old(self).biomorphs@[biomorph_index as int].genes@)
                ==> final(self).biomorphs@[biomorph_index as int].segment_list@.len() == 0,
            forall|j: int|
                0 <= j < old(self).biomorphs@.len() && j != biomorph_index
                    ==> #[trigger] final(self).biomorphs@[j] == old(self).biomorphs@[j],
    {
        let _ = self.biomorphs[biomorph_index].develop();
    }

    /// The next generation from the organism at `biomorph_index`, with the
    /// mutations given: slot `k` becomes the parent with gene `choices[k].0`
    /// stepped up (`choices[k].1`) or down, and is drawn at once. The parent's
    /// own slot is replaced too.
    pub fn reproduce_with(&mut self, biomorph_index: usize, choices: &Vec<(usize, bool)>)
        requires
            biomorph_index < old(self).biomorphs@.len(),
            genes_valid(old(self).biomorphs@[biomorph_index as int].genes@),
            choices@.len() == old(self).biomorphs@.len(),
            forall|k: int| 0 <= k < choices@.len() ==> #[trigger] choices@[k].0 < 9,
        ensures
            final(self).biomorphs@.len() == old(self).biomorphs@.len(),
            final(self).wf(),
            final(self).developed(),
            forall|k: int|
                0 <= k < choices@.len() ==> #[trigger] final(self).biomorphs@[k].genes@ == mutation(
                    old(self).biomorphs@[biomorph_index as int].genes@,
                    choices@[k].0 as int,
                    choices@[k].1,
                ),
    {
        let parent = Biomorph::new(self.biomorphs[biomorph_index].genes);
        let ghost pg = parent.genes@;
        let n = self.biomorphs.len();
        let mut i: usize = 0;
        while i < n
            invariant
                0 <= i <= n,
                n == self.biomorphs@.len(),
                n == choices@.len(),
                genes_valid(pg),
                parent.genes@ == pg,
                pg == old(self).biomorphs@[biomorph_index as int].genes@,
                forall|k: int| 0 <= k < choices@.len() ==> #[trigger] choices@[k].0 < 9,
                forall|k: int|
                    0 <= k < i ==> #[trigger] self.biomorphs@[k].genes@ == mutation(
                        pg,
                        choices@[k].0 as int,
                        choices@[k].1,
                    ) && self.biomorphs@[k].segment_list@ == expansion(self.biomorphs@[k].genes@),
            decreases n - i,
        {
            let (index, up) = choices[i];
            let mut child = parent.mutate(index, up);
            proof {
                lemma_mutation_in_bounds(pg, index as int, up);
            }
            let _ = child.develop();
            self.biomorphs.set(i, child);
            i = i + 1;
        }
        assert forall|k: int| 0 <= k < self.biomorphs@.len() implies genes_valid(
            #[trigger] self.biomorphs@[k].genes@,
        ) by {
            lemma_mutation_in_bounds(pg, choices@[k].0 as int, choices@[k].1);
        }
    }

    /// The next generation from the organism at `biomorph_index`: every slot,
    /// the parent's own included, becomes an independent random mutation of
    /// the parent, drawn at once.
    pub fn reproduce(&mut self, biomorph_index: usize)
        requires
            biomorph_index < old(self).biomorphs@.len(),
            genes_valid(old(self).biomorphs@[biomorph_index as int].genes@),
        ensures
            final(self).biomorphs@.len() == old(self).biomorphs@.len(),
            final(self).wf(),
            final(self).developed(),
            forall|k: int|
                0 <= k < final(self).biomorphs@.len() ==> is_mutation_of(
                    old(self).biomorphs@[biomorph_index as int].genes@,
                    #[trigger] final(self).biomorphs@[k].genes@,
                ),
    {
        let n = self.biomorphs.len();
        let mut choices: Vec<(usize, bool)> = Vec::with_capacity(n);
        let mut i: usize = 0;
        while i < n
            invariant
                0 <= i <= n,
                choices@.len() == i,
                forall|k: int| 0 <= k < i ==> #[trigger] choices@[k].0 < 9,
            decreases n - i,
        {
            let index = random_range(0, 9) as usize;
            let up = random_bool();
            choices.push((index, up));
            i = i + 1;
        }
        let ghost pg = self.biomorphs@[biomorph_index as int].genes@;
        self.reproduce_with(biomorph_index, &choices);
        assert forall|k: int| 0 <= k < self.biomorphs@.len() implies is_mutation_of(
            pg,
            #[trigger] self.biomorphs@[k].genes@,
        ) by {
            assert(0 <= choices@[k].0 < 9 && self.biomorphs@[k].genes@ == mutation(
                pg,
                choices@[k].0 as int,
                choices@[k].1,
            ));
        }
    }
}

} // verus!
